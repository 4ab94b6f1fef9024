use rustc_hash::FxHashMap;
use vstd::prelude::*;
use vstd::utf8::encode_utf8;

use crate::fxmap::{name_index, name_index_get, name_index_insert, name_index_new};
use crate::num::{parse_unsigned, unsigned_value};
use crate::sorting::{bytes_lt, named_le, sort_named};

verus! {

/// The UTF-8 length of a name.
pub open spec fn byte_len(s: Seq<char>) -> nat {
    encode_utf8(s).len()
}

/// The total UTF-8 length of the first `i` names.
pub open spec fn bytes_before(names: Seq<String>, i: int) -> nat
    decreases i,
{
    if i <= 0 || names.len() < i {
        0
    } else {
        bytes_before(names, i - 1) + byte_len(names[i - 1]@)
    }
}

proof fn lemma_bytes_before_grows(names: Seq<String>, i: int, j: int)
    requires
        0 <= i <= j <= names.len(),
    ensures
        bytes_before(names, i) <= bytes_before(names, j),
    decreases j - i,
{
    if i < j {
        lemma_bytes_before_grows(names, i, j - 1);
    }
}

/// The UTF-8 bytes of the first `i` names, one after the other: the name
/// text that the offsets point into.
pub open spec fn name_blob(names: Seq<String>, i: int) -> Seq<u8>
    decreases i,
{
    if i <= 0 || names.len() < i {
        Seq::empty()
    } else {
        name_blob(names, i - 1) + encode_utf8(names[i - 1]@)
    }
}

proof fn lemma_name_blob_len(names: Seq<String>, k: int)
    requires
        0 <= k <= names.len(),
    ensures
        name_blob(names, k).len() == bytes_before(names, k),
    decreases k,
{
    if k > 0 {
        lemma_name_blob_len(names, k - 1);
    }
}

proof fn lemma_name_blob_prefix(names: Seq<String>, k: int, j: int)
    requires
        0 <= k <= j <= names.len(),
    ensures
        name_blob(names, j).take(bytes_before(names, k) as int) == name_blob(names, k),
    decreases j - k,
{
    lemma_name_blob_len(names, k);
    if k < j {
        lemma_name_blob_prefix(names, k, j - 1);
        lemma_name_blob_len(names, j - 1);
        lemma_bytes_before_grows(names, k, j - 1);
        let prev = name_blob(names, j - 1);
        assert(name_blob(names, j) == prev + encode_utf8(names[j - 1]@));
        assert((prev + encode_utf8(names[j - 1]@)).take(bytes_before(names, k) as int) =~= prev.take(
            bytes_before(names, k) as int,
        ));
    } else {
        assert(name_blob(names, k).take(bytes_before(names, k) as int) =~= name_blob(names, k));
    }
}

/// The offsets that `name_offsets` gives cut the concatenated names back into
/// the names: the bytes from offset `i` to offset `i + 1` are name `i`.
pub proof fn lemma_offsets_cut_the_names(names: Seq<String>, i: int)
    requires
        0 <= i < names.len(),
    ensures
        name_blob(names, names.len() as int).subrange(
            bytes_before(names, i) as int,
            bytes_before(names, i + 1) as int,
        ) == encode_utf8(names[i]@),
{
    let n = names.len() as int;
    lemma_name_blob_prefix(names, i + 1, n);
    lemma_name_blob_len(names, i);
    lemma_name_blob_len(names, i + 1);
    lemma_name_blob_len(names, n);
    lemma_bytes_before_grows(names, i, i + 1);
    lemma_bytes_before_grows(names, i + 1, n);
    let whole = name_blob(names, n);
    let upto = name_blob(names, i + 1);
    let before = name_blob(names, i);
    assert(upto == before + encode_utf8(names[i]@));
    assert(whole.take(bytes_before(names, i + 1) as int) == upto);
    assert(whole.subrange(bytes_before(names, i) as int, bytes_before(names, i + 1) as int) =~= upto.subrange(
        bytes_before(names, i) as int,
        bytes_before(names, i + 1) as int,
    ));
    assert(upto.subrange(bytes_before(names, i) as int, bytes_before(names, i + 1) as int) =~= encode_utf8(
        names[i]@,
    ));
}

/// Where each name starts in the concatenation of all of them, and where the
/// last one ends.
pub fn name_offsets(names: &[String]) -> (out: Vec<u32>)
    requires
        bytes_before(names@, names@.len() as int) <= u32::MAX,
    ensures
        out@.len() == names@.len() + 1,
        forall|i: int| 0 <= i < out@.len() ==> #[trigger] out@[i] == bytes_before(names@, i),
{
    let mut out: Vec<u32> = Vec::new();
    out.push(0);
    let mut total: u32 = 0;
    let mut i: usize = 0;
    while i < names.len()
        invariant
            i <= names@.len(),
            bytes_before(names@, names@.len() as int) <= u32::MAX,
            total == bytes_before(names@, i as int),
            out@.len() == i + 1,
            forall|j: int| 0 <= j <= i ==> #[trigger] out@[j] == bytes_before(names@, j),
        decreases names@.len() - i,
    {
        let len = names[i].as_str().len();
        proof {
            lemma_bytes_before_grows(names@, i as int + 1, names@.len() as int);
        }
        total = total + len as u32;
        out.push(total);
        i = i + 1;
    }
    out
}

/// The characters of each name.
pub open spec fn name_views(names: Seq<String>) -> Seq<Seq<char>> {
    names.map_values(|s: String| s@)
}

/// The last position that holds `name`.
pub open spec fn last_position(names: Seq<Seq<char>>, name: Seq<char>) -> Option<int>
    decreases names.len(),
{
    if names.len() == 0 {
        None
    } else if names.last() == name {
        Some(names.len() - 1)
    } else {
        last_position(names.drop_last(), name)
    }
}

pub(crate) proof fn lemma_last_position_bound(names: Seq<Seq<char>>, name: Seq<char>)
    ensures
        last_position(names, name) matches Some(i) ==> 0 <= i < names.len() && names[i] == name,
    decreases names.len(),
{
    if names.len() > 0 && names.last() != name {
        lemma_last_position_bound(names.drop_last(), name);
    }
}

/// Why a row of the tag table was refused.
#[derive(Debug, Clone, Copy, PartialEq, Eq, Structural)]
pub enum RowError {
    /// The id is not an unsigned 32-bit number.
    BadId,
    /// The post count is not an unsigned 32-bit number.
    BadCount,
}

/// Reads one row of the tag table from its id, name, category and post
/// count fields: a category that is not a number up to 255 reads as general
/// (0), and the flag says so. The id is read before the post count.
pub fn tag_row(id: &[u8], name: String, category: &[u8], count: &[u8]) -> (r: Result<
    ((u32, String, u8, u32), bool),
    RowError,
>)
    ensures
        unsigned_value(id@, u32::MAX as int) is None ==> r == Err::<((u32, String, u8, u32), bool), RowError>(
            RowError::BadId,
        ),
        unsigned_value(id@, u32::MAX as int) is Some && unsigned_value(count@, u32::MAX as int) is None ==> r
            == Err::<((u32, String, u8, u32), bool), RowError>(RowError::BadCount),
        r matches Ok((row, bad)) ==> {
            &&& unsigned_value(id@, u32::MAX as int) == Some(row.0 as nat)
            &&& row.1@ == name@
            &&& bad == unsigned_value(category@, u8::MAX as int) is None
            &&& row.2 == match unsigned_value(category@, u8::MAX as int) {
                Some(c) => c as u8,
                None => 0u8,
            }
            &&& unsigned_value(count@, u32::MAX as int) == Some(row.3 as nat)
        },
        r is Ok <==> unsigned_value(id@, u32::MAX as int) is Some && unsigned_value(count@, u32::MAX as int) is Some,
{
    let (cat, bad) = match parse_unsigned(category, 255) {
        Some(c) => (c as u8, false),
        None => (0u8, true),
    };
    let tag_id = match parse_unsigned(id, 0xffff_ffff) {
        Some(v) => v as u32,
        None => {
            return Err(RowError::BadId);
        },
    };
    let posts = match parse_unsigned(count, 0xffff_ffff) {
        Some(v) => v as u32,
        None => {
            return Err(RowError::BadCount);
        },
    };
    Ok(((tag_id, name, cat, posts), bad))
}

/// The tag table, ordered by post count (most first): nodes, then the tail of
/// tags with at least one post, then the rest.
pub struct Tags {
    pub ids: Vec<u32>,
    pub names: Vec<String>,
    pub categories: Vec<u8>,
    pub post_counts: Vec<u32>,
    pub n_nodes: usize,
    pub n_tail: usize,
    pub node_floor: u32,
    /// Each name's position; `from_parts` fills it.
    pub index: FxHashMap<String, u32>,
}

impl Tags {
    /// The name index holds each name at its last position.
    pub closed spec fn indexed(&self) -> bool {
        &&& self.names@.len() <= u32::MAX
        &&& forall|name: Seq<char>| #[trigger]
            name_index(self.index).contains_key(name) <==> last_position(
                name_views(self.names@),
                name,
            ) is Some
        &&& forall|name: Seq<char>|
            #[trigger] name_index(self.index).contains_key(name) ==> name_index(self.index)[name]
                == last_position(name_views(self.names@), name)->0
    }

    /// Assembles a table from its columns and indexes the names.
    pub fn from_parts(
        ids: Vec<u32>,
        names: Vec<String>,
        categories: Vec<u8>,
        post_counts: Vec<u32>,
        n_nodes: usize,
        n_tail: usize,
        node_floor: u32,
    ) -> (t: Tags)
        requires
            names@.len() <= u32::MAX,
        ensures
            t.ids == ids,
            t.names == names,
            t.categories == categories,
            t.post_counts == post_counts,
            t.n_nodes == n_nodes,
            t.n_tail == n_tail,
            t.node_floor == node_floor,
            t.indexed(),
    {
        let mut index = name_index_new();
        let ghost views = name_views(names@);
        let mut i: usize = 0;
        while i < names.len()
            invariant
                i <= names@.len(),
                names@.len() <= u32::MAX,
                views == name_views(names@),
                forall|name: Seq<char>| #[trigger]
                    name_index(index).contains_key(name) <==> last_position(
                        views.take(i as int),
                        name,
                    ) is Some,
                forall|name: Seq<char>|
                    #[trigger] name_index(index).contains_key(name) ==> name_index(index)[name]
                        == last_position(views.take(i as int), name)->0,
            decreases names@.len() - i,
        {
            let name = names[i].clone();
            proof {
                let t = views.take(i as int + 1);
                assert(t.drop_last() =~= views.take(i as int));
                assert(t.last() == names@[i as int]@);
            }
            name_index_insert(&mut index, name, i as u32);
            i = i + 1;
        }
        assert(views.take(names@.len() as int) =~= views);
        Tags { ids, names, categories, post_counts, n_nodes, n_tail, node_floor, index }
    }

    /// The position of the tag called `name`, the last one if two share it.
    pub fn index_of(&self, name: &str) -> (r: Option<u32>)
        requires
            self.indexed(),
        ensures
            r == (match last_position(name_views(self.names@), name@) {
                Some(i) => Some(i as u32),
                None => None,
            }),
    {
        let r = name_index_get(&self.index, name);
        proof {
            lemma_last_position_bound(name_views(self.names@), name@);
        }
        r
    }

    /// Orders raw `(id, name, category, post_count)` rows by post count, most
    /// first, then by name, and splits them into the nodes (at least
    /// `node_floor` posts), the tail (at least one post) and the rest.
    pub fn from_rows(rows: &Vec<(u32, String, u8, u32)>, node_floor: u32) -> (t: Tags)
        requires
            rows@.len() <= u32::MAX,
        ensures
            t.indexed(),
            t.node_floor == node_floor,
            t.ids@.len() == rows@.len(),
            t.names@.len() == rows@.len(),
            t.categories@.len() == rows@.len(),
            t.post_counts@.len() == rows@.len(),
            exists|p: Seq<u32>|
                {
                    &&& p.len() == rows@.len()
                    &&& p.no_duplicates()
                    &&& forall|k: int| 0 <= k < p.len() ==> (#[trigger] p[k]) < rows@.len()
                    &&& forall|k: int|
                        0 <= k < p.len() ==> (t.ids@[k], t.names@[k], t.categories@[k], t.post_counts@[k])
                            == #[trigger] rows@[p[k] as int]
                },
            forall|a: int, b: int|
                0 <= a < b < rows@.len() ==> #[trigger] t.post_counts@[a] >= #[trigger] t.post_counts@[b],
            forall|a: int, b: int|
                0 <= a < b < rows@.len() && #[trigger] t.post_counts@[a] == #[trigger] t.post_counts@[b]
                    ==> !bytes_lt(encode_utf8(t.names@[b]@), encode_utf8(t.names@[a]@)),
            t.n_nodes <= rows@.len(),
            forall|k: int| 0 <= k < t.n_nodes ==> #[trigger] t.post_counts@[k] >= node_floor,
            t.n_nodes < rows@.len() ==> t.post_counts@[t.n_nodes as int] < node_floor,
            t.n_nodes + t.n_tail <= rows@.len(),
            forall|k: int| t.n_nodes <= k < t.n_nodes + t.n_tail ==> #[trigger] t.post_counts@[k] >= 1,
            t.n_nodes + t.n_tail < rows@.len() ==> t.post_counts@[t.n_nodes + t.n_tail] < 1,
    {
        broadcast use vstd::seq_lib::group_to_multiset_ensures;

        let n = rows.len();
        let mut keyed: Vec<(u64, String, u64)> = Vec::new();
        let mut i: usize = 0;
        while i < n
            invariant
                i <= n,
                n == rows@.len(),
                keyed@.len() == i,
                forall|j: int|
                    0 <= j < i ==> #[trigger] keyed@[j] == (
                        (u32::MAX - rows@[j].3) as u64,
                        rows@[j].1,
                        j as u64,
                    ),
            decreases n - i,
        {
            keyed.push(((u32::MAX - rows[i].3) as u64, rows[i].1.clone(), i as u64));
            i = i + 1;
        }
        let ghost before = keyed@;
        assert(before.no_duplicates()) by {
            assert forall|a: int, b: int|
                0 <= a < before.len() && 0 <= b < before.len() && a != b implies before[a] != before[b] by {
                assert(before[a].2 != before[b].2);
            }
        }
        proof {
            before.lemma_multiset_has_no_duplicates();
        }
        sort_named(&mut keyed);
        let ghost after = keyed@;
        assert(after.len() == before.len()) by {
            assert(after.to_multiset().len() == before.to_multiset().len());
        }
        proof {
            after.lemma_multiset_has_no_duplicates_conv();
        }
        assert forall|q: int| 0 <= q < after.len() implies before.contains(#[trigger] after[q]) by {
            assert(after.contains(after[q]));
            assert(after.to_multiset().count(after[q]) > 0);
        }
        let mut ids: Vec<u32> = Vec::new();
        let mut names: Vec<String> = Vec::new();
        let mut categories: Vec<u8> = Vec::new();
        let mut post_counts: Vec<u32> = Vec::new();
        let mut order: Vec<u32> = Vec::new();
        let mut q: usize = 0;
        while q < n
            invariant
                q <= n,
                n == rows@.len(),
                n <= u32::MAX,
                keyed@ == after,
                after.len() == n,
                before.len() == n,
                forall|j: int|
                    0 <= j < n ==> #[trigger] before[j] == (
                        (u32::MAX - rows@[j].3) as u64,
                        rows@[j].1,
                        j as u64,
                    ),
                forall|x: int| 0 <= x < after.len() ==> before.contains(#[trigger] after[x]),
                ids@.len() == q,
                names@.len() == q,
                categories@.len() == q,
                post_counts@.len() == q,
                order@.len() == q,
                forall|x: int| 0 <= x < q ==> (#[trigger] order@[x]) as u64 == after[x].2 && order@[x] < n,
                forall|x: int|
                    0 <= x < q ==> (ids@[x], names@[x], categories@[x], post_counts@[x]) == #[trigger] rows@[
                        order@[x] as int
                    ],
            decreases n - q,
        {
            let ghost j = choose|j: int| 0 <= j < before.len() && before[j] == after[q as int];
            let at = keyed[q].2 as usize;
            assert(at == j);
            ids.push(rows[at].0);
            names.push(rows[at].1.clone());
            categories.push(rows[at].2);
            post_counts.push(rows[at].3);
            order.push(at as u32);
            q = q + 1;
        }
        // the order is a permutation of the rows
        assert(order@.no_duplicates()) by {
            assert forall|a: int, b: int|
                0 <= a < order@.len() && 0 <= b < order@.len() && a != b implies order@[a] != order@[b] by {
                if order@[a] == order@[b] {
                    let ja = choose|j: int| 0 <= j < before.len() && before[j] == after[a];
                    let jb = choose|j: int| 0 <= j < before.len() && before[j] == after[b];
                    assert(ja == jb);
                }
            }
        }
        // sorted by count, most first, then by name
        assert forall|a: int, b: int| 0 <= a < b < n implies #[trigger] post_counts@[a] >= #[trigger] post_counts@[b]
            && (post_counts@[a] == post_counts@[b] ==> !bytes_lt(
            encode_utf8(names@[b]@),
            encode_utf8(names@[a]@),
        )) by {
            assert(named_le(after[a], after[b]));
            let ja = choose|j: int| 0 <= j < before.len() && before[j] == after[a];
            let jb = choose|j: int| 0 <= j < before.len() && before[j] == after[b];
            assert(order@[a] as u64 == after[a].2 && order@[b] as u64 == after[b].2);
            assert(order@[a] == ja && order@[b] == jb);
            assert(rows@[order@[a] as int] == (ids@[a], names@[a], categories@[a], post_counts@[a]));
            assert(rows@[order@[b] as int] == (ids@[b], names@[b], categories@[b], post_counts@[b]));
            if post_counts@[a] == post_counts@[b] {
                lemma_bytes_lt_asym(encode_utf8(names@[a]@), encode_utf8(names@[b]@));
            }
        }
        let mut n_nodes: usize = 0;
        while n_nodes < n && post_counts[n_nodes] >= node_floor
            invariant
                n_nodes <= n,
                post_counts@.len() == n,
                forall|k: int| 0 <= k < n_nodes ==> #[trigger] post_counts@[k] >= node_floor,
            decreases n - n_nodes,
        {
            n_nodes = n_nodes + 1;
        }
        let mut end: usize = n_nodes;
        while end < n && post_counts[end] >= 1
            invariant
                n_nodes <= end <= n,
                post_counts@.len() == n,
                forall|k: int| n_nodes <= k < end ==> #[trigger] post_counts@[k] >= 1,
            decreases n - end,
        {
            end = end + 1;
        }
        let t = Tags::from_parts(ids, names, categories, post_counts, n_nodes, end - n_nodes, node_floor);
        assert(order@.len() == n);
        t
    }
}

/// In a table whose names are all different, each name is found at its own
/// position.
pub proof fn lemma_each_name_found(names: Seq<Seq<char>>, i: int)
    requires
        names.no_duplicates(),
        0 <= i < names.len(),
    ensures
        last_position(names, names[i]) == Some(i),
    decreases names.len(),
{
    if i < names.len() - 1 {
        let init = names.drop_last();
        assert(init.no_duplicates()) by {
            assert forall|x: int, y: int| 0 <= x < init.len() && 0 <= y < init.len() && x != y implies init[x]
                != init[y] by {
                assert(init[x] == names[x] && init[y] == names[y]);
            }
        }
        assert(names.last() != names[i]) by {
            assert(names.last() == names[names.len() - 1]);
        }
        assert(init[i] == names[i]);
        lemma_each_name_found(init, i);
    }
}

/// A name no tag has is not found.
pub proof fn lemma_unknown_name_not_found(names: Seq<Seq<char>>, name: Seq<char>)
    requires
        !names.contains(name),
    ensures
        last_position(names, name) is None,
    decreases names.len(),
{
    if names.len() > 0 {
        assert(names.last() == names[names.len() - 1]);
        assert(!names.drop_last().contains(name)) by {
            if names.drop_last().contains(name) {
                let j = choose|j: int| 0 <= j < names.drop_last().len() && names.drop_last()[j] == name;
                assert(names[j] == name);
            }
        }
        lemma_unknown_name_not_found(names.drop_last(), name);
    }
}

/// A name's last position lies in the table.
pub(crate) proof fn lemma_last_position_in(tags: &Tags, name: Seq<char>)
    requires
        tags.indexed(),
    ensures
        last_position(name_views(tags.names@), name) matches Some(i) ==> 0 <= i < tags.names@.len()
            && i <= u32::MAX,
{
    lemma_last_position_bound(name_views(tags.names@), name);
}

/// No two byte strings each come strictly before the other.
proof fn lemma_bytes_lt_asym(a: Seq<u8>, b: Seq<u8>)
    ensures
        !(bytes_lt(a, b) && bytes_lt(b, a)),
    decreases a.len(),
{
    if a.len() > 0 && b.len() > 0 && a[0] == b[0] {
        lemma_bytes_lt_asym(a.drop_first(), b.drop_first());
    }
}

} // verus!
