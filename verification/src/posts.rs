use vstd::prelude::*;

use vstd::string::StringSliceAdditionalSpecFns;
use vstd::utf8::{decode_utf8, encode_utf8_decode_utf8, valid_utf8};

use rustc_hash::FxHashMap;

use crate::communities::{lemma_occurrences_step, occurrences};
use crate::fxmap::{tally_get, tally_insert};
use crate::pairs::{pair_key, Pairs};
use crate::num::{parse_unsigned, unsigned_value};
use crate::sorting::sorted_set;
use crate::tags::{last_position, name_views, Tags};

verus! {

/// The first year a post can be dated to.
pub const YEAR0: u16 = 2007;

/// How many years from `YEAR0` the tallies have room for.
pub const MAX_YEARS: usize = 32;

/// How the posts are counted.
pub struct CountParams {
    /// Workers the pair counting is split over, by the first tag of a pair.
    pub shards: usize,
    /// Expected distinct node pairs, to size the maps.
    pub pairs_hint: usize,
    /// Expected distinct tail pairs, to size the maps.
    pub tail_pairs_hint: usize,
}

/// What a pass over the posts export found.
pub struct PostStats {
    pub posts_total: u64,
    pub posts_deleted: u64,
    pub posts_kept: u64,
    /// Years from `YEAR0` up to the last one with a post.
    pub years: usize,
    pub year_totals: Vec<u64>,
    /// Posts per node and year, `years` to a node.
    pub node_year: Vec<u32>,
    /// Posts per node and rating (safe, questionable, explicit).
    pub node_rating: Vec<u32>,
    /// The first year each node was used, `u16::MAX` if never.
    pub node_first_year: Vec<u16>,
    pub node_posts: Vec<u32>,
    pub tail_posts: Vec<u32>,
    pub distinct_node_pairs: u64,
    pub distinct_tail_pairs: u64,
    pub pair_increments: u64,
}

/// Why a row of the posts export cannot be counted.
#[derive(Debug, PartialEq, Eq, Structural)]
pub enum PostError {
    /// `created_at` does not start with a four digit year.
    BadDate,
    /// The year falls outside the slots from `YEAR0`.
    YearOutOfRange(u16),
    /// The rating is not `s`, `q` or `e`.
    UnknownRating,
}

/// The rating a field starts with: 0 safe, 1 questionable, 2 explicit.
pub open spec fn rating_of(field: Seq<u8>) -> Option<u8> {
    if field.len() == 0 {
        None
    } else if field[0] == 115 {
        Some(0u8)
    } else if field[0] == 113 {
        Some(1u8)
    } else if field[0] == 101 {
        Some(2u8)
    } else {
        None
    }
}

/// What a row of the posts export amounts to: nothing for a deleted post, else
/// the post's year and rating.
pub open spec fn row_outcome(is_deleted: Seq<u8>, created_at: Seq<u8>, rating: Seq<u8>) -> Result<
    Option<(u16, u8)>,
    PostError,
> {
    if is_deleted == seq![116u8] {
        Ok(None)
    } else if created_at.len() < 4 {
        Err(PostError::BadDate)
    } else {
        match unsigned_value(created_at.take(4), 0xffff) {
            None => Err(PostError::BadDate),
            Some(y) => if y < YEAR0 || y - YEAR0 >= MAX_YEARS {
                Err(PostError::YearOutOfRange(y as u16))
            } else {
                match rating_of(rating) {
                    None => Err(PostError::UnknownRating),
                    Some(k) => Ok(Some((y as u16, k))),
                }
            },
        }
    }
}

/// Reads the three fields of a posts row that the counting needs.
pub fn classify(is_deleted: &[u8], created_at: &[u8], rating: &[u8]) -> (r: Result<Option<(u16, u8)>, PostError>)
    ensures
        r == row_outcome(is_deleted@, created_at@, rating@),
{
    if is_deleted.len() == 1 && is_deleted[0] == 116 {
        assert(is_deleted@ =~= seq![116u8]);
        return Ok(None);
    }
    assert(is_deleted@ != seq![116u8]) by {
        if is_deleted@ == seq![116u8] {
            assert(is_deleted@.len() == 1 && is_deleted@[0] == 116);
        }
    }
    if created_at.len() < 4 {
        return Err(PostError::BadDate);
    }
    let head = slice_prefix(created_at, 4);
    let year = match parse_unsigned(head.as_slice(), 0xffff) {
        None => {
            return Err(PostError::BadDate);
        },
        Some(y) => y as u16,
    };
    if year < YEAR0 || (year - YEAR0) as usize >= MAX_YEARS {
        return Err(PostError::YearOutOfRange(year));
    }
    if rating.len() == 0 {
        return Err(PostError::UnknownRating);
    }
    let k: u8 = if rating[0] == 115 {
        0
    } else if rating[0] == 113 {
        1
    } else if rating[0] == 101 {
        2
    } else {
        return Err(PostError::UnknownRating);
    };
    Ok(Some((year, k)))
}

/// The first `n` bytes of `s`.
fn slice_prefix(s: &[u8], n: usize) -> (out: Vec<u8>)
    requires
        n <= s@.len(),
    ensures
        out@ == s@.take(n as int),
{
    let mut out: Vec<u8> = Vec::new();
    let mut i: usize = 0;
    while i < n
        invariant
            i <= n <= s@.len(),
            out@ == s@.take(i as int),
        decreases n - i,
    {
        out.push(s[i]);
        i = i + 1;
        assert(out@ =~= s@.take(i as int));
    }
    out
}

/// The kept posts of a stretch of the export: their tag strings back to back,
/// where each ends, and their years and ratings.
pub struct RawBatch {
    pub text: Vec<u8>,
    pub off: Vec<u32>,
    pub year: Vec<u16>,
    pub rating: Vec<u8>,
}

impl RawBatch {
    /// The batch's columns fit together.
    pub open spec fn wf(&self) -> bool {
        &&& self.off@.len() == self.year@.len() + 1
        &&& self.rating@.len() == self.year@.len()
        &&& self.off@[0] == 0
        &&& self.off@.last() == self.text@.len()
        &&& forall|a: int, b: int| 0 <= a <= b < self.off@.len() ==> self.off@[a] <= self.off@[b]
    }

    /// An empty batch.
    pub fn new() -> (b: RawBatch)
        ensures
            b.wf(),
            b.year@.len() == 0,
            b.text@.len() == 0,
    {
        let mut off: Vec<u32> = Vec::new();
        off.push(0);
        RawBatch { text: Vec::new(), off, year: Vec::new(), rating: Vec::new() }
    }

    /// How many posts the batch holds.
    pub fn len(&self) -> (n: usize)
        ensures
            n == self.year@.len(),
    {
        self.year.len()
    }

    /// Appends a post.
    pub fn push(&mut self, tags: &[u8], year: u16, rating: u8)
        requires
            old(self).wf(),
            old(self).text@.len() + tags@.len() <= u32::MAX,
        ensures
            final(self).wf(),
            final(self).text@ == old(self).text@ + tags@,
            final(self).off@ == old(self).off@.push((old(self).text@.len() + tags@.len()) as u32),
            final(self).year@ == old(self).year@.push(year),
            final(self).rating@ == old(self).rating@.push(rating),
    {
        let ghost before = self.off@;
        let mut i: usize = 0;
        let ghost start = self.text@;
        while i < tags.len()
            invariant
                i <= tags@.len(),
                self.text@ == start + tags@.take(i as int),
                self.off@ == before,
                self.year@ == old(self).year@,
                self.rating@ == old(self).rating@,
                start == old(self).text@,
            decreases tags@.len() - i,
        {
            self.text.push(tags[i]);
            i = i + 1;
            assert(self.text@ =~= start + tags@.take(i as int));
        }
        assert(tags@.take(tags@.len() as int) =~= tags@);
        let end = self.text.len() as u32;
        self.off.push(end);
        self.year.push(year);
        self.rating.push(rating);
        assert forall|a: int, b: int| 0 <= a <= b < self.off@.len() implies self.off@[a] <= self.off@[b] by {
            if b == self.off@.len() - 1 && a < b {
                assert(before[a] <= before[before.len() - 1]);
            }
        }
    }
}

/// The tags of a stretch of posts as node and tail indices, back to back, with
/// where each post's run ends.
pub struct Batch {
    pub node_off: Vec<u32>,
    pub node_idx: Vec<u32>,
    pub tail_off: Vec<u32>,
    pub tail_idx: Vec<u32>,
}

/// The offsets start at 0, never fall and end at the end of the values.
pub open spec fn runs_wf(off: Seq<u32>, len: nat) -> bool {
    &&& off.len() >= 1
    &&& off[0] == 0
    &&& off.last() == len
    &&& forall|a: int, b: int| 0 <= a <= b < off.len() ==> off[a] <= off[b]
}

/// Run `p` of the values.
pub open spec fn run(off: Seq<u32>, vals: Seq<u32>, p: int) -> Seq<u32> {
    vals.subrange(off[p] as int, off[p + 1] as int)
}

impl Batch {
    /// Both sets of runs are well formed and cover the same posts.
    pub open spec fn wf(&self) -> bool {
        &&& runs_wf(self.node_off@, self.node_idx@.len())
        &&& runs_wf(self.tail_off@, self.tail_idx@.len())
        &&& self.node_off@.len() == self.tail_off@.len()
    }

    /// The node indices of post `p`.
    pub open spec fn nodes_of(&self, p: int) -> Seq<u32> {
        run(self.node_off@, self.node_idx@, p)
    }

    /// The tail indices of post `p`.
    pub open spec fn tails_of(&self, p: int) -> Seq<u32> {
        run(self.tail_off@, self.tail_idx@, p)
    }

    /// An empty batch.
    pub fn new() -> (b: Batch)
        ensures
            b.wf(),
            b.node_off@.len() == 1,
    {
        let mut node_off: Vec<u32> = Vec::new();
        node_off.push(0);
        let mut tail_off: Vec<u32> = Vec::new();
        tail_off.push(0);
        Batch { node_off, node_idx: Vec::new(), tail_off, tail_idx: Vec::new() }
    }

    /// How many posts the batch holds.
    pub fn len(&self) -> (n: usize)
        requires
            self.node_off@.len() >= 1,
        ensures
            n == self.node_off@.len() - 1,
    {
        self.node_off.len() - 1
    }

    /// Appends a post's node and tail indices.
    pub fn push(&mut self, nodes: &[u32], tails: &[u32])
        requires
            old(self).wf(),
            old(self).node_idx@.len() + nodes@.len() <= u32::MAX,
            old(self).tail_idx@.len() + tails@.len() <= u32::MAX,
        ensures
            final(self).wf(),
            final(self).node_off@.len() == old(self).node_off@.len() + 1,
            forall|p: int|
                0 <= p < old(self).node_off@.len() - 1 ==> final(self).nodes_of(p) == old(self).nodes_of(p)
                    && final(self).tails_of(p) == old(self).tails_of(p),
            final(self).nodes_of(old(self).node_off@.len() - 1) == nodes@,
            final(self).tails_of(old(self).node_off@.len() - 1) == tails@,
    {
        let ghost old_self = *self;
        extend_runs(&mut self.node_off, &mut self.node_idx, nodes);
        extend_runs(&mut self.tail_off, &mut self.tail_idx, tails);
        assert forall|p: int| 0 <= p < old_self.node_off@.len() - 1 implies self.nodes_of(p) == old_self.nodes_of(p)
            && self.tails_of(p) == old_self.tails_of(p) by {
            assert(old_self.node_off@[p] <= old_self.node_off@[p + 1] <= old_self.node_off@.last());
            assert(old_self.tail_off@[p] <= old_self.tail_off@[p + 1] <= old_self.tail_off@.last());
            assert(self.nodes_of(p) =~= old_self.nodes_of(p));
            assert(self.tails_of(p) =~= old_self.tails_of(p));
        }
    }
}

/// Appends one run to a set of runs.
fn extend_runs(off: &mut Vec<u32>, vals: &mut Vec<u32>, run_vals: &[u32])
    requires
        runs_wf(old(off)@, old(vals)@.len()),
        old(vals)@.len() + run_vals@.len() <= u32::MAX,
    ensures
        runs_wf(final(off)@, final(vals)@.len()),
        final(off)@ == old(off)@.push((old(vals)@.len() + run_vals@.len()) as u32),
        final(vals)@ == old(vals)@ + run_vals@,
{
    let ghost start = vals@;
    let ghost before = off@;
    let mut i: usize = 0;
    while i < run_vals.len()
        invariant
            i <= run_vals@.len(),
            vals@ == start + run_vals@.take(i as int),
            off@ == before,
        decreases run_vals@.len() - i,
    {
        vals.push(run_vals[i]);
        i = i + 1;
        assert(vals@ =~= start + run_vals@.take(i as int));
    }
    assert(run_vals@.take(run_vals@.len() as int) =~= run_vals@);
    let end = vals.len() as u32;
    off.push(end);
    assert forall|a: int, b: int| 0 <= a <= b < off@.len() implies off@[a] <= off@[b] by {
        if b == off@.len() - 1 && a < b {
            assert(before[a] <= before[before.len() - 1]);
        }
    }
}

/// What a worker's tallies hold, as numbers: posts kept, posts per year slot,
/// per node and year slot, per node and rating, each node's first year, posts
/// per node, per tail tag, and the words that were not UTF-8.
pub struct Tallies {
    pub kept: int,
    pub year_totals: Seq<int>,
    pub node_year: Seq<int>,
    pub node_rating: Seq<int>,
    pub node_first_year: Seq<int>,
    pub node_posts: Seq<int>,
    pub tail_posts: Seq<int>,
    pub bad_utf8: int,
}

/// One kept post: its node indices, tail indices, year and rating.
pub type PostRecord = (Seq<u32>, Seq<u32>, u16, u8);

/// Empty tallies for `n` nodes and `t` tail tags.
pub open spec fn empty_tallies(n: nat, t: nat) -> Tallies {
    Tallies {
        kept: 0,
        year_totals: Seq::new(MAX_YEARS as nat, |i: int| 0),
        node_year: Seq::new((n * MAX_YEARS) as nat, |i: int| 0),
        node_rating: Seq::new((n * 3) as nat, |i: int| 0),
        node_first_year: Seq::new(n, |i: int| u16::MAX as int),
        node_posts: Seq::new(n, |i: int| 0),
        tail_posts: Seq::new(t, |i: int| 0),
        bad_utf8: 0,
    }
}

/// The tallies once post `p` is counted in.
pub open spec fn record_spec(a: Tallies, p: PostRecord) -> Tallies {
    let (nodes, tails, year, rating) = p;
    let y = year - YEAR0;
    Tallies {
        kept: a.kept + 1,
        year_totals: Seq::new(
            a.year_totals.len(),
            |i: int|
                a.year_totals[i] + if i == y {
                    1int
                } else {
                    0
                },
        ),
        node_year: Seq::new(
            a.node_year.len(),
            |c: int|
                a.node_year[c] + if c % MAX_YEARS as int == y {
                    occurrences(nodes, (c / MAX_YEARS as int) as u32) as int
                } else {
                    0
                },
        ),
        node_rating: Seq::new(
            a.node_rating.len(),
            |c: int|
                a.node_rating[c] + if c % 3 == rating {
                    occurrences(nodes, (c / 3) as u32) as int
                } else {
                    0
                },
        ),
        node_first_year: Seq::new(
            a.node_first_year.len(),
            |i: int|
                if nodes.contains(i as u32) && year < a.node_first_year[i] {
                    year as int
                } else {
                    a.node_first_year[i]
                },
        ),
        node_posts: Seq::new(a.node_posts.len(), |i: int| a.node_posts[i] + occurrences(nodes, i as u32)),
        tail_posts: Seq::new(a.tail_posts.len(), |x: int| a.tail_posts[x] + occurrences(tails, x as u32)),
        bad_utf8: a.bad_utf8,
    }
}

/// The tallies once `posts` are counted in, in order.
pub open spec fn record_all(a: Tallies, posts: Seq<PostRecord>) -> Tallies
    decreases posts.len(),
{
    if posts.len() == 0 {
        a
    } else {
        record_spec(record_all(a, posts.drop_last()), posts.last())
    }
}

/// Two workers' tallies added together: sums, and the earlier first year.
pub open spec fn merge_spec(a: Tallies, b: Tallies) -> Tallies {
    Tallies {
        kept: a.kept + b.kept,
        year_totals: Seq::new(a.year_totals.len(), |i: int| a.year_totals[i] + b.year_totals[i]),
        node_year: Seq::new(a.node_year.len(), |i: int| a.node_year[i] + b.node_year[i]),
        node_rating: Seq::new(a.node_rating.len(), |i: int| a.node_rating[i] + b.node_rating[i]),
        node_first_year: Seq::new(
            a.node_first_year.len(),
            |i: int|
                if b.node_first_year[i] < a.node_first_year[i] {
                    b.node_first_year[i]
                } else {
                    a.node_first_year[i]
                },
        ),
        node_posts: Seq::new(a.node_posts.len(), |i: int| a.node_posts[i] + b.node_posts[i]),
        tail_posts: Seq::new(a.tail_posts.len(), |i: int| a.tail_posts[i] + b.tail_posts[i]),
        bad_utf8: a.bad_utf8 + b.bad_utf8,
    }
}

/// Tallies of the same shape: the same slots, node and tail counts.
pub open spec fn same_shape(a: Tallies, b: Tallies) -> bool {
    &&& a.year_totals.len() == b.year_totals.len()
    &&& a.node_year.len() == b.node_year.len()
    &&& a.node_rating.len() == b.node_rating.len()
    &&& a.node_first_year.len() == b.node_first_year.len()
    &&& a.node_posts.len() == b.node_posts.len()
    &&& a.tail_posts.len() == b.tail_posts.len()
}

proof fn lemma_record_shape(a: Tallies, posts: Seq<PostRecord>)
    ensures
        same_shape(record_all(a, posts), a),
    decreases posts.len(),
{
    if posts.len() > 0 {
        lemma_record_shape(a, posts.drop_last());
        assert(record_all(a, posts) == record_spec(record_all(a, posts.drop_last()), posts.last()));
    }
}

proof fn lemma_merge_record(a: Tallies, b: Tallies, p: PostRecord)
    requires
        same_shape(a, b),
    ensures
        merge_spec(a, record_spec(b, p)) == record_spec(merge_spec(a, b), p),
{
    let l = merge_spec(a, record_spec(b, p));
    let r = record_spec(merge_spec(a, b), p);
    assert(l.year_totals =~= r.year_totals);
    assert(l.node_year =~= r.node_year);
    assert(l.node_rating =~= r.node_rating);
    assert(l.node_first_year =~= r.node_first_year);
    assert(l.node_posts =~= r.node_posts);
    assert(l.tail_posts =~= r.tail_posts);
}

proof fn lemma_merge_empty(a: Tallies, n: nat, t: nat)
    requires
        same_shape(a, empty_tallies(n, t)),
        forall|i: int| 0 <= i < n ==> #[trigger] a.node_first_year[i] <= u16::MAX,
    ensures
        merge_spec(a, empty_tallies(n, t)) == a,
{
    let m = merge_spec(a, empty_tallies(n, t));
    assert(m.year_totals =~= a.year_totals);
    assert(m.node_year =~= a.node_year);
    assert(m.node_rating =~= a.node_rating);
    assert(m.node_first_year =~= a.node_first_year);
    assert(m.node_posts =~= a.node_posts);
    assert(m.tail_posts =~= a.tail_posts);
}

proof fn lemma_first_years_bounded(a: Tallies, posts: Seq<PostRecord>)
    requires
        forall|i: int| 0 <= i < a.node_first_year.len() ==> #[trigger] a.node_first_year[i] <= u16::MAX,
    ensures
        forall|i: int|
            0 <= i < record_all(a, posts).node_first_year.len() ==> #[trigger] record_all(a, posts).node_first_year[i]
                <= u16::MAX,
    decreases posts.len(),
{
    if posts.len() > 0 {
        lemma_first_years_bounded(a, posts.drop_last());
        let prev = record_all(a, posts.drop_last());
        let now = record_all(a, posts);
        assert(now == record_spec(prev, posts.last()));
        assert forall|i: int| 0 <= i < now.node_first_year.len() implies #[trigger] now.node_first_year[i]
            <= u16::MAX by {
            assert(0 <= i < prev.node_first_year.len());
        }
    }
}

proof fn lemma_merge_records(a: Tallies, n: nat, t: nat, q: Seq<PostRecord>)
    requires
        same_shape(a, empty_tallies(n, t)),
        forall|i: int| 0 <= i < n ==> #[trigger] a.node_first_year[i] <= u16::MAX,
    ensures
        merge_spec(a, record_all(empty_tallies(n, t), q)) == record_all(a, q),
    decreases q.len(),
{
    if q.len() == 0 {
        lemma_merge_empty(a, n, t);
    } else {
        lemma_merge_records(a, n, t, q.drop_last());
        lemma_record_shape(empty_tallies(n, t), q.drop_last());
        lemma_merge_record(a, record_all(empty_tallies(n, t), q.drop_last()), q.last());
    }
}

proof fn lemma_record_concat(a: Tallies, p: Seq<PostRecord>, q: Seq<PostRecord>)
    ensures
        record_all(record_all(a, p), q) == record_all(a, p + q),
    decreases q.len(),
{
    if q.len() > 0 {
        lemma_record_concat(a, p, q.drop_last());
        assert((p + q).drop_last() =~= p + q.drop_last());
        assert((p + q).last() == q.last());
    }
}

/// Merging is order-blind: the tallies of two workers that counted `p1` and
/// `p2` from empty, merged, are the tallies of one worker that counted `p1`
/// and then `p2`.
pub proof fn lemma_merge_is_recording_both(n: nat, t: nat, p1: Seq<PostRecord>, p2: Seq<PostRecord>)
    ensures
        merge_spec(record_all(empty_tallies(n, t), p1), record_all(empty_tallies(n, t), p2)) == record_all(
            empty_tallies(n, t),
            p1 + p2,
        ),
{
    let e = empty_tallies(n, t);
    lemma_record_shape(e, p1);
    lemma_first_years_bounded(e, p1);
    lemma_merge_records(record_all(e, p1), n, t, p2);
    lemma_record_concat(e, p1, p2);
}

/// One worker's tallies over the posts it looked up.
pub struct Partial {
    pub kept: u64,
    pub year_totals: Vec<u64>,
    /// Posts per node and year slot, `MAX_YEARS` slots to a node.
    pub node_year: Vec<u32>,
    /// Posts per node and rating, three to a node.
    pub node_rating: Vec<u32>,
    pub node_first_year: Vec<u16>,
    pub node_posts: Vec<u32>,
    pub tail_posts: Vec<u32>,
    pub bad_utf8: u64,
}

impl Partial {
    /// The tallies as numbers.
    pub open spec fn tallies(&self) -> Tallies {
        Tallies {
            kept: self.kept as int,
            year_totals: self.year_totals@.map_values(|v: u64| v as int),
            node_year: self.node_year@.map_values(|v: u32| v as int),
            node_rating: self.node_rating@.map_values(|v: u32| v as int),
            node_first_year: self.node_first_year@.map_values(|v: u16| v as int),
            node_posts: self.node_posts@.map_values(|v: u32| v as int),
            tail_posts: self.tail_posts@.map_values(|v: u32| v as int),
            bad_utf8: self.bad_utf8 as int,
        }
    }

    /// The tallies have room for `n_nodes` nodes and `n_tail` tail tags.
    pub open spec fn shaped(&self, n_nodes: nat, n_tail: nat) -> bool {
        &&& self.year_totals@.len() == MAX_YEARS
        &&& self.node_year@.len() == n_nodes * MAX_YEARS
        &&& self.node_rating@.len() == n_nodes * 3
        &&& self.node_first_year@.len() == n_nodes
        &&& self.node_posts@.len() == n_nodes
        &&& self.tail_posts@.len() == n_tail
    }

    /// Empty tallies for `n_nodes` nodes and `n_tail` tail tags.
    pub fn new(n_nodes: usize, n_tail: usize) -> (p: Partial)
        requires
            n_nodes * MAX_YEARS <= usize::MAX,
        ensures
            p.shaped(n_nodes as nat, n_tail as nat),
            p.kept == 0,
            p.bad_utf8 == 0,
            forall|i: int| 0 <= i < MAX_YEARS ==> #[trigger] p.year_totals@[i] == 0,
            forall|i: int| 0 <= i < p.node_year@.len() ==> #[trigger] p.node_year@[i] == 0,
            forall|i: int| 0 <= i < p.node_rating@.len() ==> #[trigger] p.node_rating@[i] == 0,
            forall|i: int| 0 <= i < n_nodes ==> #[trigger] p.node_first_year@[i] == u16::MAX,
            forall|i: int| 0 <= i < n_nodes ==> #[trigger] p.node_posts@[i] == 0,
            forall|i: int| 0 <= i < n_tail ==> #[trigger] p.tail_posts@[i] == 0,
            p.tallies() == empty_tallies(n_nodes as nat, n_tail as nat),
    {
        assert(n_nodes * 3 <= n_nodes * MAX_YEARS) by (nonlinear_arith);
        let p = Partial {
            kept: 0,
            year_totals: filled_u64(MAX_YEARS),
            node_year: filled_u32(n_nodes * MAX_YEARS, 0),
            node_rating: filled_u32(n_nodes * 3, 0),
            node_first_year: filled_u16(n_nodes, u16::MAX),
            node_posts: filled_u32(n_nodes, 0),
            tail_posts: filled_u32(n_tail, 0),
            bad_utf8: 0,
        };
        proof {
            let t = p.tallies();
            let e = empty_tallies(n_nodes as nat, n_tail as nat);
            assert(t.year_totals =~= e.year_totals);
            assert(t.node_year =~= e.node_year);
            assert(t.node_rating =~= e.node_rating);
            assert(t.node_first_year =~= e.node_first_year);
            assert(t.node_posts =~= e.node_posts);
            assert(t.tail_posts =~= e.tail_posts);
        }
        p
    }

    /// Counts one kept post with node indices `nodes`, tail indices `tails`,
    /// its year and its rating.
    pub fn record(&mut self, nodes: &[u32], tails: &[u32], year: u16, rating: u8)
        requires
            old(self).shaped(old(self).node_posts@.len(), old(self).tail_posts@.len()),
            YEAR0 <= year < YEAR0 + MAX_YEARS,
            rating < 3,
            forall|j: int| 0 <= j < nodes@.len() ==> (#[trigger] nodes@[j]) < old(self).node_posts@.len(),
            forall|j: int| 0 <= j < tails@.len() ==> (#[trigger] tails@[j]) < old(self).tail_posts@.len(),
            old(self).kept < u64::MAX,
            old(self).year_totals@[year - YEAR0] < u64::MAX,
            old(self).node_posts@.len() <= u32::MAX,
            old(self).tail_posts@.len() <= u32::MAX,
            forall|i: int|
                0 <= i < old(self).node_posts@.len() ==> {
                    &&& old(self).node_posts@[i] + #[trigger] occurrences(nodes@, i as u32) <= u32::MAX
                    &&& old(self).node_year@[i * MAX_YEARS + (year - YEAR0)] + occurrences(nodes@, i as u32)
                        <= u32::MAX
                    &&& old(self).node_rating@[i * 3 + rating] + occurrences(nodes@, i as u32) <= u32::MAX
                },
            forall|x: int|
                0 <= x < old(self).tail_posts@.len() ==> old(self).tail_posts@[x] + occurrences(tails@, x as u32)
                    <= u32::MAX,
        ensures
            final(self).shaped(old(self).node_posts@.len(), old(self).tail_posts@.len()),
            final(self).kept == old(self).kept + 1,
            final(self).bad_utf8 == old(self).bad_utf8,
            final(self).year_totals@ == old(self).year_totals@.update(
                year - YEAR0,
                (old(self).year_totals@[year - YEAR0] + 1) as u64,
            ),
            forall|i: int|
                0 <= i < old(self).node_posts@.len() ==> #[trigger] final(self).node_posts@[i]
                    == old(self).node_posts@[i] + occurrences(nodes@, i as u32),
            forall|c: int|
                0 <= c < old(self).node_year@.len() ==> #[trigger] final(self).node_year@[c]
                    == old(self).node_year@[c] + if c % MAX_YEARS as int == year - YEAR0 {
                    occurrences(nodes@, (c / MAX_YEARS as int) as u32)
                } else {
                    0
                },
            forall|c: int|
                0 <= c < old(self).node_rating@.len() ==> #[trigger] final(self).node_rating@[c]
                    == old(self).node_rating@[c] + if c % 3 == rating {
                    occurrences(nodes@, (c / 3) as u32)
                } else {
                    0
                },
            forall|i: int|
                0 <= i < old(self).node_posts@.len() ==> #[trigger] final(self).node_first_year@[i] == if nodes@.contains(
                    i as u32,
                ) && year < old(self).node_first_year@[i] {
                    year
                } else {
                    old(self).node_first_year@[i]
                },
            forall|x: int|
                0 <= x < old(self).tail_posts@.len() ==> #[trigger] final(self).tail_posts@[x]
                    == old(self).tail_posts@[x] + occurrences(tails@, x as u32),
            final(self).tallies() == record_spec(old(self).tallies(), (nodes@, tails@, year, rating)),
    {
        let ghost before = self.tallies();
        let y = (year - YEAR0) as usize;
        self.kept = self.kept + 1;
        let t = self.year_totals[y];
        self.year_totals.set(y, t + 1);
        let n = self.node_posts.len();
        tally_values(&mut self.node_posts, nodes);
        tally_cells(&mut self.node_year, nodes, n, MAX_YEARS, y);
        tally_cells(&mut self.node_rating, nodes, n, 3, rating as usize);
        first_years(&mut self.node_first_year, nodes, year);
        tally_values(&mut self.tail_posts, tails);
        proof {
            let t = self.tallies();
            let w = record_spec(before, (nodes@, tails@, year, rating));
            assert(t.year_totals =~= w.year_totals);
            assert(t.node_year =~= w.node_year);
            assert(t.node_rating =~= w.node_rating);
            assert(t.node_first_year =~= w.node_first_year);
            assert(t.node_posts =~= w.node_posts);
            assert(t.tail_posts =~= w.tail_posts);
        }
    }

    /// Adds another worker's tallies into these.
    pub fn merge(&mut self, other: Partial)
        requires
            old(self).shaped(old(self).node_posts@.len(), old(self).tail_posts@.len()),
            other.shaped(old(self).node_posts@.len(), old(self).tail_posts@.len()),
            old(self).kept + other.kept <= u64::MAX,
            old(self).bad_utf8 + other.bad_utf8 <= u64::MAX,
            forall|i: int| 0 <= i < MAX_YEARS ==> old(self).year_totals@[i] + other.year_totals@[i] <= u64::MAX,
            forall|i: int|
                0 <= i < old(self).node_year@.len() ==> old(self).node_year@[i] + other.node_year@[i] <= u32::MAX,
            forall|i: int|
                0 <= i < old(self).node_rating@.len() ==> old(self).node_rating@[i] + other.node_rating@[i]
                    <= u32::MAX,
            forall|i: int|
                0 <= i < old(self).node_posts@.len() ==> old(self).node_posts@[i] + other.node_posts@[i]
                    <= u32::MAX,
            forall|i: int|
                0 <= i < old(self).tail_posts@.len() ==> old(self).tail_posts@[i] + other.tail_posts@[i]
                    <= u32::MAX,
        ensures
            final(self).shaped(old(self).node_posts@.len(), old(self).tail_posts@.len()),
            final(self).kept == old(self).kept + other.kept,
            final(self).bad_utf8 == old(self).bad_utf8 + other.bad_utf8,
            forall|i: int|
                0 <= i < MAX_YEARS ==> #[trigger] final(self).year_totals@[i] == old(self).year_totals@[i]
                    + other.year_totals@[i],
            forall|i: int|
                0 <= i < old(self).node_year@.len() ==> #[trigger] final(self).node_year@[i]
                    == old(self).node_year@[i] + other.node_year@[i],
            forall|i: int|
                0 <= i < old(self).node_rating@.len() ==> #[trigger] final(self).node_rating@[i]
                    == old(self).node_rating@[i] + other.node_rating@[i],
            forall|i: int|
                0 <= i < old(self).node_first_year@.len() ==> #[trigger] final(self).node_first_year@[i]
                    == if other.node_first_year@[i] < old(self).node_first_year@[i] {
                    other.node_first_year@[i]
                } else {
                    old(self).node_first_year@[i]
                },
            forall|i: int|
                0 <= i < old(self).node_posts@.len() ==> #[trigger] final(self).node_posts@[i]
                    == old(self).node_posts@[i] + other.node_posts@[i],
            forall|i: int|
                0 <= i < old(self).tail_posts@.len() ==> #[trigger] final(self).tail_posts@[i]
                    == old(self).tail_posts@[i] + other.tail_posts@[i],
            final(self).tallies() == merge_spec(old(self).tallies(), other.tallies()),
    {
        let ghost before = self.tallies();
        let ghost theirs = other.tallies();
        self.kept = self.kept + other.kept;
        self.bad_utf8 = self.bad_utf8 + other.bad_utf8;
        add_u64(&mut self.year_totals, &other.year_totals);
        add_u32(&mut self.node_year, &other.node_year);
        add_u32(&mut self.node_rating, &other.node_rating);
        min_u16(&mut self.node_first_year, &other.node_first_year);
        add_u32(&mut self.node_posts, &other.node_posts);
        add_u32(&mut self.tail_posts, &other.tail_posts);
        proof {
            let t = self.tallies();
            let w = merge_spec(before, theirs);
            assert(t.year_totals =~= w.year_totals);
            assert(t.node_year =~= w.node_year);
            assert(t.node_rating =~= w.node_rating);
            assert(t.node_first_year =~= w.node_first_year);
            assert(t.node_posts =~= w.node_posts);
            assert(t.tail_posts =~= w.tail_posts);
        }
    }

    /// The finished statistics: the year slots cut back to the last year with a
    /// post, the rest carried over as they are.
    pub fn finish(self, n_nodes: usize, posts_total: u64, posts_deleted: u64, pair_increments: u64) -> (s: PostStats)
        requires
            self.shaped(n_nodes as nat, self.tail_posts@.len()),
        ensures
            s.posts_total == posts_total,
            s.posts_deleted == posts_deleted,
            s.posts_kept == self.kept,
            s.years == last_year(self.year_totals@),
            s.year_totals@ == self.year_totals@.take(s.years as int),
            s.node_year@.len() == n_nodes * s.years,
            forall|i: int, z: int|
                0 <= i < n_nodes && 0 <= z < s.years ==> s.node_year@[i * s.years + z]
                    == #[trigger] self.node_year@[i * MAX_YEARS + z],
            s.node_rating == self.node_rating,
            s.node_first_year == self.node_first_year,
            s.node_posts == self.node_posts,
            s.tail_posts == self.tail_posts,
            s.distinct_node_pairs == 0,
            s.distinct_tail_pairs == 0,
            s.pair_increments == pair_increments,
    {
        let years = last_nonzero(&self.year_totals);
        let yl = self.node_year.len();
        proof {
            lemma_last_year_bound(self.year_totals@);
        }
        let mut compact: Vec<u32> = Vec::new();
        let mut i: usize = 0;
        while i < n_nodes
            invariant
                i <= n_nodes,
                years <= MAX_YEARS,
                yl == self.node_year@.len(),
                self.node_year@.len() == n_nodes * MAX_YEARS,
                compact@.len() == i * years,
                forall|a: int, z: int|
                    0 <= a < i && 0 <= z < years ==> compact@[a * years + z]
                        == #[trigger] self.node_year@[a * MAX_YEARS + z],
            decreases n_nodes - i,
        {
            let mut z: usize = 0;
            while z < years
                invariant
                    i < n_nodes,
                    yl == self.node_year@.len(),
                    z <= years <= MAX_YEARS,
                    self.node_year@.len() == n_nodes * MAX_YEARS,
                    compact@.len() == i * years + z,
                    forall|a: int, w: int|
                        0 <= a < i && 0 <= w < years ==> compact@[a * years + w]
                            == #[trigger] self.node_year@[a * MAX_YEARS + w],
                    forall|w: int| 0 <= w < z ==> compact@[i * years + w] == #[trigger] self.node_year@[i * MAX_YEARS + w],
                decreases years - z,
            {
                proof {
                    lemma_cell(i as int, z as int, MAX_YEARS as int, n_nodes as int);
                    assert forall|a: int, w: int| #![trigger self.node_year@[a * MAX_YEARS + w]] 0 <= a < i && 0 <= w < years implies a * years + w < i * years by {
                        lemma_row_before(a, w, years as int, i as int);
                    }
                }
                compact.push(self.node_year[i * MAX_YEARS + z]);
                z = z + 1;
            }
            proof {
                assert forall|a: int, w: int| 0 <= a < i + 1 && 0 <= w < years implies compact@[a * years + w]
                    == #[trigger] self.node_year@[a * MAX_YEARS + w] by {
                    if a == i {
                    } else {
                        lemma_cell(a, w, years as int, i as int);
                    }
                }
                assert((i + 1) * years == i * years + years) by (nonlinear_arith);
            }
            i = i + 1;
        }
        let totals = take_u64(&self.year_totals, years);
        PostStats {
            posts_total,
            posts_deleted,
            posts_kept: self.kept,
            years,
            year_totals: totals,
            node_year: compact,
            node_rating: self.node_rating,
            node_first_year: self.node_first_year,
            node_posts: self.node_posts,
            tail_posts: self.tail_posts,
            distinct_node_pairs: 0,
            distinct_tail_pairs: 0,
            pair_increments,
        }
    }
}

/// Adds one to `t[v]` for each `v` in `vals`.
fn tally_values(t: &mut Vec<u32>, vals: &[u32])
    requires
        old(t)@.len() <= u32::MAX,
        forall|j: int| 0 <= j < vals@.len() ==> (#[trigger] vals@[j]) < old(t)@.len(),
        forall|x: int| 0 <= x < old(t)@.len() ==> old(t)@[x] + occurrences(vals@, x as u32) <= u32::MAX,
    ensures
        final(t)@.len() == old(t)@.len(),
        forall|x: int|
            0 <= x < old(t)@.len() ==> #[trigger] final(t)@[x] == old(t)@[x] + occurrences(vals@, x as u32),
{
    let ghost start = t@;
    let mut b: usize = 0;
    while b < vals.len()
        invariant
            b <= vals@.len(),
            t@.len() == start.len(),
            start.len() <= u32::MAX,
            forall|j: int| 0 <= j < vals@.len() ==> (#[trigger] vals@[j]) < start.len(),
            forall|x: int| 0 <= x < start.len() ==> start[x] + occurrences(vals@, x as u32) <= u32::MAX,
            forall|x: int|
                0 <= x < start.len() ==> #[trigger] t@[x] == start[x] + occurrences(vals@.take(b as int), x as u32),
        decreases vals@.len() - b,
    {
        let x = vals[b] as usize;
        proof {
            assert forall|v: u32| #[trigger] occurrences(vals@.take(b + 1), v) == occurrences(vals@.take(b as int), v)
                + if v == x as u32 {
                1nat
            } else {
                0nat
            } by {
                lemma_occurrences_step(vals@, b as int, v);
            }
            lemma_occurrences_prefix(vals@, b as int + 1, x as u32);
        }
        let c = t[x];
        t.set(x, c + 1);
        proof {
            assert forall|z: int| 0 <= z < start.len() implies #[trigger] t@[z] == start[z] + occurrences(
                vals@.take(b + 1),
                z as u32,
            ) by {
                if z != x {
                    assert(z as u32 != x as u32);
                }
            }
        }
        b = b + 1;
    }
    assert(vals@.take(vals@.len() as int) =~= vals@);
}

/// Adds one to cell `(v, col)` of a table with rows of `w` cells for each `v`
/// in `vals`.
fn tally_cells(t: &mut Vec<u32>, vals: &[u32], rows: usize, w: usize, col: usize)
    requires
        rows <= u32::MAX,
        old(t)@.len() == rows * w,
        col < w,
        forall|j: int| 0 <= j < vals@.len() ==> (#[trigger] vals@[j]) < rows,
        forall|i: int| 0 <= i < rows ==> old(t)@[i * w + col] + #[trigger] occurrences(vals@, i as u32) <= u32::MAX,
    ensures
        final(t)@.len() == old(t)@.len(),
        forall|c: int|
            0 <= c < old(t)@.len() ==> #[trigger] final(t)@[c] == old(t)@[c] + if c % w as int == col {
                occurrences(vals@, (c / w as int) as u32)
            } else {
                0
            },
{
    let ghost start = t@;
    let tl = t.len();
    let mut b: usize = 0;
    while b < vals.len()
        invariant
            b <= vals@.len(),
            rows <= u32::MAX,
            tl == start.len(),
            col < w,
            t@.len() == start.len(),
            start.len() == rows * w,
            forall|j: int| 0 <= j < vals@.len() ==> (#[trigger] vals@[j]) < rows,
            forall|i: int| 0 <= i < rows ==> start[i * w + col] + #[trigger] occurrences(vals@, i as u32) <= u32::MAX,
            forall|c: int|
                0 <= c < start.len() ==> #[trigger] t@[c] == start[c] + if c % w as int == col {
                    occurrences(vals@.take(b as int), (c / w as int) as u32)
                } else {
                    0
                },
        decreases vals@.len() - b,
    {
        let i = vals[b] as usize;
        proof {
            assert forall|v: u32| #[trigger] occurrences(vals@.take(b + 1), v) == occurrences(vals@.take(b as int), v)
                + if v == i as u32 {
                1nat
            } else {
                0nat
            } by {
                lemma_occurrences_step(vals@, b as int, v);
            }
            lemma_occurrences_prefix(vals@, b as int + 1, i as u32);
            lemma_cell(i as int, col as int, w as int, rows as int);
        }
        let cell = i * w + col;
        let c = t[cell];
        t.set(cell, c + 1);
        proof {
            assert forall|z: int| 0 <= z < start.len() implies #[trigger] t@[z] == start[z] + if z % w as int == col {
                occurrences(vals@.take(b + 1), (z / w as int) as u32)
            } else {
                0
            } by {
                lemma_cell_of(z, w as int, rows as int);
                if z != cell && z % w as int == col && z / w as int == i {
                    assert(w as int * i == i * w as int) by (nonlinear_arith);
                    assert(false);
                }
            }
        }
        b = b + 1;
    }
    assert(vals@.take(vals@.len() as int) =~= vals@);
}

/// Lowers `t[v]` to `year` for each `v` in `vals`.
fn first_years(t: &mut Vec<u16>, vals: &[u32], year: u16)
    requires
        old(t)@.len() <= u32::MAX,
        forall|j: int| 0 <= j < vals@.len() ==> (#[trigger] vals@[j]) < old(t)@.len(),
    ensures
        final(t)@.len() == old(t)@.len(),
        forall|i: int|
            0 <= i < old(t)@.len() ==> #[trigger] final(t)@[i] == if vals@.contains(i as u32) && year < old(t)@[i] {
                year
            } else {
                old(t)@[i]
            },
{
    let ghost start = t@;
    let mut b: usize = 0;
    while b < vals.len()
        invariant
            b <= vals@.len(),
            t@.len() == start.len(),
            start.len() <= u32::MAX,
            forall|j: int| 0 <= j < vals@.len() ==> (#[trigger] vals@[j]) < start.len(),
            forall|i: int|
                0 <= i < start.len() ==> #[trigger] t@[i] == if vals@.take(b as int).contains(i as u32) && year
                    < start[i] {
                    year
                } else {
                    start[i]
                },
        decreases vals@.len() - b,
    {
        let i = vals[b] as usize;
        if year < t[i] {
            t.set(i, year);
        }
        proof {
            let pre = vals@.take(b as int);
            let post = vals@.take(b + 1);
            assert forall|k: int| 0 <= k < start.len() implies #[trigger] t@[k] == if post.contains(k as u32) && year
                < start[k] {
                year
            } else {
                start[k]
            } by {
                assert(post.contains(k as u32) == (pre.contains(k as u32) || k == i)) by {
                    if post.contains(k as u32) {
                        let j = choose|j: int| 0 <= j < post.len() && post[j] == k as u32;
                        if j < b {
                            assert(pre[j] == k as u32);
                        }
                    }
                    if pre.contains(k as u32) {
                        let j = choose|j: int| 0 <= j < pre.len() && pre[j] == k as u32;
                        assert(post[j] == k as u32);
                    }
                    if k == i {
                        assert(post[b as int] == k as u32);
                    }
                }
            }
        }
        b = b + 1;
    }
    assert(vals@.take(vals@.len() as int) =~= vals@);
}

/// One past the last year slot with a post, 0 if none has one.
pub open spec fn last_year(t: Seq<u64>) -> nat
    decreases t.len(),
{
    if t.len() == 0 {
        0
    } else if t.last() != 0 {
        t.len()
    } else {
        last_year(t.drop_last())
    }
}

/// The year slots cut off after the last year with a post held no post.
pub proof fn lemma_cut_years_were_empty(t: Seq<u64>, y: int)
    requires
        last_year(t) <= y < t.len(),
    ensures
        t[y] == 0,
    decreases t.len(),
{
    if y < t.len() - 1 {
        assert(t.last() == t[t.len() - 1]);
        lemma_cut_years_were_empty(t.drop_last(), y);
        assert(t.drop_last()[y] == t[y]);
    } else {
        assert(t.last() == t[y]);
    }
}

proof fn lemma_last_year_bound(t: Seq<u64>)
    ensures
        last_year(t) <= t.len(),
    decreases t.len(),
{
    if t.len() > 0 {
        lemma_last_year_bound(t.drop_last());
    }
}

fn last_nonzero(t: &Vec<u64>) -> (n: usize)
    ensures
        n == last_year(t@),
{
    let mut n: usize = t.len();
    assert(t@.take(n as int) =~= t@);
    while n > 0 && t[n - 1] == 0
        invariant
            n <= t@.len(),
            last_year(t@.take(n as int)) == last_year(t@),
        decreases n,
    {
        proof {
            assert(t@.take(n as int).drop_last() =~= t@.take(n - 1));
        }
        n = n - 1;
    }
    proof {
        if n > 0 {
            assert(t@.take(n as int).last() == t@[n - 1]);
        }
    }
    n
}

proof fn lemma_occurrences_absent(s: Seq<u32>, v: u32)
    requires
        !s.contains(v),
    ensures
        occurrences(s, v) == 0,
    decreases s.len(),
{
    if s.len() > 0 {
        assert(!s.drop_last().contains(v)) by {
            if s.drop_last().contains(v) {
                let j = choose|j: int| 0 <= j < s.drop_last().len() && s.drop_last()[j] == v;
                assert(s[j] == v);
            }
        }
        lemma_occurrences_absent(s.drop_last(), v);
        assert(s[s.len() - 1] == s.last());
    }
}

proof fn lemma_occurrences_prefix(s: Seq<u32>, i: int, v: u32)
    requires
        0 <= i <= s.len(),
    ensures
        occurrences(s.take(i), v) <= occurrences(s, v),
    decreases s.len() - i,
{
    if i < s.len() {
        lemma_occurrences_step(s, i, v);
        lemma_occurrences_prefix(s, i + 1, v);
    } else {
        assert(s.take(i) =~= s);
    }
}

/// A cell of an earlier row comes before every cell of row `i`.
proof fn lemma_row_before(a: int, w: int, width: int, i: int)
    requires
        0 <= a < i,
        0 <= w < width,
    ensures
        a * width + w < i * width,
{
    assert(a * width + w < i * width) by (nonlinear_arith)
        requires
            0 <= a < i,
            0 <= w < width,
    ;
}

/// Cell `(i, z)` of a row-major table with rows of `w` cells.
proof fn lemma_cell(i: int, z: int, w: int, rows: int)
    requires
        0 <= i < rows,
        0 <= z < w,
    ensures
        0 <= i * w + z < rows * w,
        (i * w + z) / w == i,
        (i * w + z) % w == z,
{
    assert(0 <= i * w + z < rows * w) by (nonlinear_arith)
        requires
            0 <= i < rows,
            0 <= z < w,
    ;
    vstd::arithmetic::div_mod::lemma_fundamental_div_mod_converse(i * w + z, w, i, z);
}

/// The row and column of a cell of a row-major table.
proof fn lemma_cell_of(c: int, w: int, rows: int)
    requires
        0 <= c < rows * w,
        0 < w,
    ensures
        0 <= c / w < rows,
        0 <= c % w < w,
        c == w * (c / w) + c % w,
{
    vstd::arithmetic::div_mod::lemma_fundamental_div_mod(c, w);
    assert(0 <= c / w < rows) by (nonlinear_arith)
        requires
            0 <= c < rows * w,
            0 < w,
            c == w * (c / w) + c % w,
            0 <= c % w < w,
    ;
}

fn filled_u32(n: usize, v: u32) -> (out: Vec<u32>)
    ensures
        out@.len() == n,
        forall|i: int| 0 <= i < n ==> #[trigger] out@[i] == v,
{
    let mut out: Vec<u32> = Vec::new();
    let mut i: usize = 0;
    while i < n
        invariant
            i <= n,
            out@.len() == i,
            forall|j: int| 0 <= j < i ==> #[trigger] out@[j] == v,
        decreases n - i,
    {
        out.push(v);
        i = i + 1;
    }
    out
}

fn filled_u16(n: usize, v: u16) -> (out: Vec<u16>)
    ensures
        out@.len() == n,
        forall|i: int| 0 <= i < n ==> #[trigger] out@[i] == v,
{
    let mut out: Vec<u16> = Vec::new();
    let mut i: usize = 0;
    while i < n
        invariant
            i <= n,
            out@.len() == i,
            forall|j: int| 0 <= j < i ==> #[trigger] out@[j] == v,
        decreases n - i,
    {
        out.push(v);
        i = i + 1;
    }
    out
}

fn filled_u64(n: usize) -> (out: Vec<u64>)
    ensures
        out@.len() == n,
        forall|i: int| 0 <= i < n ==> #[trigger] out@[i] == 0,
{
    let mut out: Vec<u64> = Vec::new();
    let mut i: usize = 0;
    while i < n
        invariant
            i <= n,
            out@.len() == i,
            forall|j: int| 0 <= j < i ==> #[trigger] out@[j] == 0,
        decreases n - i,
    {
        out.push(0);
        i = i + 1;
    }
    out
}

fn take_u64(t: &Vec<u64>, n: usize) -> (out: Vec<u64>)
    requires
        n <= t@.len(),
    ensures
        out@ == t@.take(n as int),
{
    let mut out: Vec<u64> = Vec::new();
    let mut i: usize = 0;
    while i < n
        invariant
            i <= n <= t@.len(),
            out@ == t@.take(i as int),
        decreases n - i,
    {
        out.push(t[i]);
        i = i + 1;
        assert(out@ =~= t@.take(i as int));
    }
    out
}

fn add_u32(a: &mut Vec<u32>, b: &Vec<u32>)
    requires
        old(a)@.len() == b@.len(),
        forall|i: int| 0 <= i < b@.len() ==> old(a)@[i] + b@[i] <= u32::MAX,
    ensures
        final(a)@.len() == b@.len(),
        forall|i: int| 0 <= i < b@.len() ==> #[trigger] final(a)@[i] == old(a)@[i] + b@[i],
{
    let ghost start = a@;
    let mut i: usize = 0;
    while i < b.len()
        invariant
            i <= b@.len(),
            a@.len() == b@.len(),
            start.len() == b@.len(),
            forall|j: int| 0 <= j < b@.len() ==> start[j] + b@[j] <= u32::MAX,
            forall|j: int| 0 <= j < i ==> #[trigger] a@[j] == start[j] + b@[j],
            forall|j: int| i <= j < b@.len() ==> #[trigger] a@[j] == start[j],
        decreases b@.len() - i,
    {
        let v = a[i] + b[i];
        a.set(i, v);
        i = i + 1;
    }
}

fn add_u64(a: &mut Vec<u64>, b: &Vec<u64>)
    requires
        old(a)@.len() == b@.len(),
        forall|i: int| 0 <= i < b@.len() ==> old(a)@[i] + b@[i] <= u64::MAX,
    ensures
        final(a)@.len() == b@.len(),
        forall|i: int| 0 <= i < b@.len() ==> #[trigger] final(a)@[i] == old(a)@[i] + b@[i],
{
    let ghost start = a@;
    let mut i: usize = 0;
    while i < b.len()
        invariant
            i <= b@.len(),
            a@.len() == b@.len(),
            start.len() == b@.len(),
            forall|j: int| 0 <= j < b@.len() ==> start[j] + b@[j] <= u64::MAX,
            forall|j: int| 0 <= j < i ==> #[trigger] a@[j] == start[j] + b@[j],
            forall|j: int| i <= j < b@.len() ==> #[trigger] a@[j] == start[j],
        decreases b@.len() - i,
    {
        let v = a[i] + b[i];
        a.set(i, v);
        i = i + 1;
    }
}

fn min_u16(a: &mut Vec<u16>, b: &Vec<u16>)
    requires
        old(a)@.len() == b@.len(),
    ensures
        final(a)@.len() == b@.len(),
        forall|i: int|
            0 <= i < b@.len() ==> #[trigger] final(a)@[i] == if b@[i] < old(a)@[i] {
                b@[i]
            } else {
                old(a)@[i]
            },
{
    let ghost start = a@;
    let mut i: usize = 0;
    while i < b.len()
        invariant
            i <= b@.len(),
            a@.len() == b@.len(),
            start.len() == b@.len(),
            forall|j: int|
                0 <= j < i ==> #[trigger] a@[j] == if b@[j] < start[j] {
                    b@[j]
                } else {
                    start[j]
                },
            forall|j: int| i <= j < b@.len() ==> #[trigger] a@[j] == start[j],
        decreases b@.len() - i,
    {
        if b[i] < a[i] {
            a.set(i, b[i]);
        }
        i = i + 1;
    }
}

/// The words of a tag string from here on, given the word under way: the runs
/// of bytes between spaces, empty ones dropped.
pub open spec fn split_words(s: Seq<u8>, cur: Seq<u8>) -> Seq<Seq<u8>>
    decreases s.len(),
{
    if s.len() == 0 {
        if cur.len() > 0 {
            seq![cur]
        } else {
            seq![]
        }
    } else if s[0] == 32 {
        (if cur.len() > 0 {
            seq![cur]
        } else {
            seq![]
        }) + split_words(s.drop_first(), seq![])
    } else {
        split_words(s.drop_first(), cur.push(s[0]))
    }
}

/// The words of a tag string.
pub open spec fn words(s: Seq<u8>) -> Seq<Seq<u8>> {
    split_words(s, seq![])
}

/// The tag a word names: its position in the table, if it is UTF-8 and some
/// tag has that name.
pub open spec fn word_tag(names: Seq<Seq<char>>, w: Seq<u8>) -> Option<int> {
    if valid_utf8(w) {
        last_position(names, decode_utf8(w))
    } else {
        None
    }
}

/// The nodes the words name, in order.
pub open spec fn node_hits(names: Seq<Seq<char>>, n_nodes: nat, ws: Seq<Seq<u8>>) -> Seq<u32>
    decreases ws.len(),
{
    if ws.len() == 0 {
        seq![]
    } else {
        let rest = node_hits(names, n_nodes, ws.drop_last());
        match word_tag(names, ws.last()) {
            Some(i) => if i < n_nodes {
                rest.push(i as u32)
            } else {
                rest
            },
            None => rest,
        }
    }
}

/// The tail tags the words name, in order, counted from the first tail tag.
pub open spec fn tail_hits(names: Seq<Seq<char>>, n_nodes: nat, n_tail: nat, ws: Seq<Seq<u8>>) -> Seq<u32>
    decreases ws.len(),
{
    if ws.len() == 0 {
        seq![]
    } else {
        let rest = tail_hits(names, n_nodes, n_tail, ws.drop_last());
        match word_tag(names, ws.last()) {
            Some(i) => if n_nodes <= i < n_nodes + n_tail {
                rest.push((i - n_nodes) as u32)
            } else {
                rest
            },
            None => rest,
        }
    }
}

/// How many words are not UTF-8.
pub open spec fn bad_words(ws: Seq<Seq<u8>>) -> nat
    decreases ws.len(),
{
    if ws.len() == 0 {
        0
    } else {
        bad_words(ws.drop_last()) + if valid_utf8(ws.last()) {
            0nat
        } else {
            1nat
        }
    }
}

/// Calls `std::str::from_utf8`. The contract claims what its documentation
/// says: the bytes come back as a string slice exactly when they are valid
/// UTF-8, and the slice holds those very bytes.
#[verifier::external_body]
pub(crate) fn utf8_text(b: &[u8]) -> (r: Option<&str>)
    ensures
        r is Some <==> valid_utf8(b@),
        r matches Some(t) ==> t.spec_bytes() == b@,
{
    std::str::from_utf8(b).ok()
}

/// The tag one word names, and whether it failed to be UTF-8.
fn look_up(word: &[u8], tags: &Tags) -> (r: (Option<u32>, bool))
    requires
        tags.indexed(),
    ensures
        r.1 == !valid_utf8(word@),
        r.0 == (match word_tag(name_views(tags.names@), word@) {
            Some(i) => Some(i as u32),
            None => None,
        }),
{
    match utf8_text(word) {
        Some(t) => {
            proof {
                encode_utf8_decode_utf8(t@);
            }
            (tags.index_of(t), false)
        },
        None => (None, true),
    }
}

/// One post's tags: the nodes it names, ascending and each once, the tail tags
/// it names, and how many of its words were not UTF-8.
pub fn post_tags(text: &[u8], tags: &Tags) -> (r: (Vec<u32>, Vec<u32>, u64))
    requires
        tags.indexed(),
    ensures
        forall|a: int, b: int| 0 <= a < b < r.0@.len() ==> #[trigger] r.0@[a] < #[trigger] r.0@[b],
        forall|x: u32| #[trigger]
            r.0@.contains(x) <==> node_hits(name_views(tags.names@), tags.n_nodes as nat, words(text@)).contains(x),
        r.1@ == tail_hits(name_views(tags.names@), tags.n_nodes as nat, tags.n_tail as nat, words(text@)),
        r.2 == bad_words(words(text@)),
{
    let ghost views = name_views(tags.names@);
    let ghost nn = tags.n_nodes as nat;
    let ghost nt = tags.n_tail as nat;
    let mut raw: Vec<u32> = Vec::new();
    let mut tails: Vec<u32> = Vec::new();
    let mut bad: u64 = 0;
    let ghost mut done: Seq<Seq<u8>> = seq![];
    let mut start: usize = 0;
    let mut i: usize = 0;
    assert(text@.skip(0) =~= text@);
    assert(text@.subrange(0, 0) =~= Seq::<u8>::empty());
    assert(done + words(text@) =~= words(text@));
    while i < text.len()
        invariant
            start <= i <= text@.len(),
            tags.indexed(),
            views == name_views(tags.names@),
            nn == tags.n_nodes,
            nt == tags.n_tail,
            words(text@) == done + split_words(text@.skip(i as int), text@.subrange(start as int, i as int)),
            raw@ == node_hits(views, nn, done),
            tails@ == tail_hits(views, nn, nt, done),
            bad == bad_words(done),
            bad <= start,
        decreases text@.len() - i,
    {
        let ghost cur = text@.subrange(start as int, i as int);
        let ghost rest = text@.skip(i as int);
        assert(rest.drop_first() =~= text@.skip(i + 1));
        assert(rest[0] == text@[i as int]);
        if text[i] == 32 {
            if start < i {
                let word = &text[start..i];
                let ghost next = done.push(word@);
                assert(next.drop_last() =~= done);
                assert(next.last() == word@);
                emit(word, tags, &mut raw, &mut tails, &mut bad);
                proof {
                    assert(done + split_words(rest, cur) =~= next + split_words(text@.skip(i + 1), seq![]));
                    done = next;
                }
            } else {
                assert(cur.len() == 0);
                assert(done + split_words(rest, cur) =~= done + split_words(text@.skip(i + 1), seq![]));
            }
            start = i + 1;
            assert(text@.subrange(start as int, i + 1) =~= Seq::<u8>::empty());
        } else {
            assert(cur.push(text@[i as int]) =~= text@.subrange(start as int, i + 1));
        }
        i = i + 1;
    }
    assert(text@.skip(i as int) =~= Seq::<u8>::empty());
    if start < text.len() {
        let word = &text[start..text.len()];
        let ghost next = done.push(word@);
        assert(next.drop_last() =~= done);
        assert(next.last() == word@);
        emit(word, tags, &mut raw, &mut tails, &mut bad);
        proof {
            assert(done + seq![word@] =~= next);
            done = next;
        }
    } else {
        assert(done + Seq::<Seq<u8>>::empty() =~= done);
    }
    let nodes = sorted_set(&raw);
    (nodes, tails, bad)
}

/// Files one word under the nodes, the tails or the words that were not UTF-8.
fn emit(word: &[u8], tags: &Tags, raw: &mut Vec<u32>, tails: &mut Vec<u32>, bad: &mut u64)
    requires
        tags.indexed(),
        *old(bad) < u64::MAX,
    ensures
        final(raw)@ == match word_tag(name_views(tags.names@), word@) {
            Some(i) => if i < tags.n_nodes {
                old(raw)@.push(i as u32)
            } else {
                old(raw)@
            },
            None => old(raw)@,
        },
        final(tails)@ == match word_tag(name_views(tags.names@), word@) {
            Some(i) => if tags.n_nodes <= i < tags.n_nodes + tags.n_tail {
                old(tails)@.push((i - tags.n_nodes) as u32)
            } else {
                old(tails)@
            },
            None => old(tails)@,
        },
        *final(bad) == *old(bad) + if valid_utf8(word@) {
            0u64
        } else {
            1u64
        },
{
    let (hit, not_utf8) = look_up(word, tags);
    proof {
        lemma_position_fits(tags, word@);
    }
    match hit {
        Some(idx) => {
            let at = idx as usize;
            if at < tags.n_nodes {
                raw.push(idx);
            } else if at - tags.n_nodes < tags.n_tail {
                tails.push((at - tags.n_nodes) as u32);
            }
        },
        None => {},
    }
    if not_utf8 {
        *bad = *bad + 1;
    }
}

proof fn lemma_position_fits(tags: &Tags, w: Seq<u8>)
    requires
        tags.indexed(),
    ensures
        word_tag(name_views(tags.names@), w) matches Some(i) ==> 0 <= i < tags.names@.len() && i <= u32::MAX,
{
    if valid_utf8(w) {
        crate::tags::lemma_last_position_in(tags, decode_utf8(w));
    }
}

/// A tally after one more sighting of `k`.
pub open spec fn bump_one(m: Map<u64, usize>, k: u64) -> Map<u64, usize> {
    m.insert(
        k,
        if m.contains_key(k) {
            (m[k] + 1) as usize
        } else {
            1usize
        },
    )
}

/// A tally after a sighting of each key of `keys`, in order.
pub open spec fn bump(m: Map<u64, usize>, keys: Seq<u64>) -> Map<u64, usize>
    decreases keys.len(),
{
    if keys.len() == 0 {
        m
    } else {
        bump_one(bump(m, keys.drop_last()), keys.last())
    }
}

/// The pairs that node `nodes[a]` opens with the nodes after it, if the node
/// belongs to `shard` of `shards`.
pub open spec fn shard_row(nodes: Seq<u32>, a: int, shard: int, shards: int) -> Seq<u64> {
    if nodes[a] as int % shards == shard {
        Seq::new((nodes.len() - a - 1) as nat, |t: int| pair_key(nodes[a], nodes[a + 1 + t]) as u64)
    } else {
        seq![]
    }
}

/// The keys of the node pairs opened by the first `upto` nodes, in order.
pub open spec fn node_keys_upto(nodes: Seq<u32>, shard: int, shards: int, upto: int) -> Seq<u64>
    decreases upto,
{
    if upto <= 0 {
        seq![]
    } else {
        node_keys_upto(nodes, shard, shards, upto - 1) + shard_row(nodes, upto - 1, shard, shards)
    }
}

/// The keys of the node pairs of one post that fall to `shard`: each pair of
/// positions `a < b` whose first node belongs to the shard.
pub open spec fn post_node_keys(nodes: Seq<u32>, shard: int, shards: int) -> Seq<u64> {
    node_keys_upto(nodes, shard, shards, nodes.len() as int)
}

/// The pairs that tail tag `tails[x]` makes with every node, if it belongs to
/// `shard` of `shards`.
pub open spec fn tail_row(tails: Seq<u32>, nodes: Seq<u32>, x: int, shard: int, shards: int) -> Seq<u64> {
    if tails[x] as int % shards == shard {
        Seq::new(nodes.len(), |t: int| pair_key(tails[x], nodes[t]) as u64)
    } else {
        seq![]
    }
}

/// The keys of the tail pairs made by the first `upto` tail tags, in order.
pub open spec fn tail_keys_upto(tails: Seq<u32>, nodes: Seq<u32>, shard: int, shards: int, upto: int) -> Seq<u64>
    decreases upto,
{
    if upto <= 0 {
        seq![]
    } else {
        tail_keys_upto(tails, nodes, shard, shards, upto - 1) + tail_row(tails, nodes, upto - 1, shard, shards)
    }
}

/// The keys of the tail pairs of one post that fall to `shard`.
pub open spec fn post_tail_keys(tails: Seq<u32>, nodes: Seq<u32>, shard: int, shards: int) -> Seq<u64> {
    tail_keys_upto(tails, nodes, shard, shards, tails.len() as int)
}

/// No count of a tally grows by more than the number of sightings.
proof fn lemma_bump_bound(m: Map<u64, usize>, keys: Seq<u64>, k: u64)
    ensures
        bump(m, keys).contains_key(k) ==> bump(m, keys)[k] <= (if m.contains_key(k) {
            m[k] as int
        } else {
            0
        }) + keys.len(),
        m.contains_key(k) ==> bump(m, keys).contains_key(k),
    decreases keys.len(),
{
    if keys.len() > 0 {
        lemma_bump_bound(m, keys.drop_last(), k);
    }
}

/// Sightings can be taken in two runs.
proof fn lemma_bump_concat(m: Map<u64, usize>, a: Seq<u64>, b: Seq<u64>)
    ensures
        bump(m, a + b) == bump(bump(m, a), b),
    decreases b.len(),
{
    if b.len() == 0 {
        assert(a + b =~= a);
    } else {
        assert((a + b).drop_last() =~= a + b.drop_last());
        assert((a + b).last() == b.last());
        lemma_bump_concat(m, a, b.drop_last());
    }
}

proof fn lemma_node_keys_len(nodes: Seq<u32>, shard: int, shards: int, upto: int)
    requires
        0 <= upto <= nodes.len(),
    ensures
        node_keys_upto(nodes, shard, shards, upto).len() <= upto * nodes.len(),
    decreases upto,
{
    if upto > 0 {
        lemma_node_keys_len(nodes, shard, shards, upto - 1);
        assert((upto - 1) * nodes.len() + nodes.len() == upto * nodes.len()) by (nonlinear_arith);
    }
}

/// One more sighting of `key` in a tally.
fn bump_key(map: &mut FxHashMap<u64, usize>, key: u64)
    requires
        old(map)@.contains_key(key) ==> old(map)@[key] < usize::MAX,
    ensures
        final(map)@ == bump_one(old(map)@, key),
{
    let c = match tally_get(map, key) {
        Some(c) => c,
        None => 0,
    };
    tally_insert(map, key, c + 1);
}

/// Counts the pairs of one post that fall to `shard` of `shards`: each pair of
/// its nodes whose first node belongs to the shard, and each of its tail tags
/// of the shard with each of its nodes. Returns how many node pairs it counted.
pub fn count_post(
    nodes: &[u32],
    tails: &[u32],
    shard: usize,
    shards: usize,
    node_map: &mut FxHashMap<u64, usize>,
    tail_map: &mut FxHashMap<u64, usize>,
) -> (increments: u64)
    requires
        shards > 0,
        nodes@.len() <= u32::MAX,
        post_node_keys(nodes@, shard as int, shards as int).len() <= usize::MAX,
        post_tail_keys(tails@, nodes@, shard as int, shards as int).len() <= usize::MAX,
        forall|k: u64|
            old(node_map)@.contains_key(k) ==> old(node_map)@[k] + post_node_keys(
                nodes@,
                shard as int,
                shards as int,
            ).len() <= usize::MAX,
        forall|k: u64|
            old(tail_map)@.contains_key(k) ==> old(tail_map)@[k] + post_tail_keys(
                tails@,
                nodes@,
                shard as int,
                shards as int,
            ).len() <= usize::MAX,
    ensures
        final(node_map)@ == bump(old(node_map)@, post_node_keys(nodes@, shard as int, shards as int)),
        final(tail_map)@ == bump(old(tail_map)@, post_tail_keys(tails@, nodes@, shard as int, shards as int)),
        increments == post_node_keys(nodes@, shard as int, shards as int).len(),
{
    let ghost m0 = node_map@;
    let ghost all = post_node_keys(nodes@, shard as int, shards as int);
    let n = nodes.len();
    proof {
        lemma_node_keys_len(nodes@, shard as int, shards as int, n as int);
        assert(n * n <= u32::MAX * u32::MAX) by (nonlinear_arith)
            requires
                n <= u32::MAX,
        ;
    }
    let mut inc: u64 = 0;
    let mut a: usize = 0;
    while a < n
        invariant
            a <= n,
            n == nodes@.len(),
            shards > 0,
            all == post_node_keys(nodes@, shard as int, shards as int),
            all.len() <= n * n,
            all.len() <= usize::MAX,
            n * n <= u32::MAX * u32::MAX,
            forall|k: u64| m0.contains_key(k) ==> m0[k] + all.len() <= usize::MAX,
            node_map@ == bump(m0, node_keys_upto(nodes@, shard as int, shards as int, a as int)),
            inc == node_keys_upto(nodes@, shard as int, shards as int, a as int).len(),
        decreases n - a,
    {
        let ghost done = node_keys_upto(nodes@, shard as int, shards as int, a as int);
        let ghost row = shard_row(nodes@, a as int, shard as int, shards as int);
        proof {
            lemma_keys_prefix(nodes@, shard as int, shards as int, a as int + 1);
        }
        if nodes[a] as usize % shards == shard {
            let mut b: usize = a + 1;
            while b < n
                invariant
                    a < b <= n,
                    n == nodes@.len(),
                    shards > 0,
                    nodes@[a as int] as int % shards as int == shard,
                    row == shard_row(nodes@, a as int, shard as int, shards as int),
                    done + row == node_keys_upto(nodes@, shard as int, shards as int, a + 1),
                    node_keys_upto(nodes@, shard as int, shards as int, a + 1).len() <= all.len(),
                    all.len() <= usize::MAX,
                    forall|k: u64| m0.contains_key(k) ==> m0[k] + all.len() <= usize::MAX,
                    node_map@ == bump(m0, done + row.take(b - a - 1)),
                decreases n - b,
            {
                let key = Pairs::key(nodes[a], nodes[b]);
                proof {
                    let before = done + row.take(b - a - 1);
                    assert(row[b - a - 1] == key);
                    assert(done + row.take(b - a) =~= before.push(key));
                    assert(before.push(key).drop_last() =~= before);
                    lemma_bump_bound(m0, before, key);
                    assert(before.len() < (done + row).len());
                    if m0.contains_key(key) {
                        assert(m0[key] + all.len() <= usize::MAX);
                    }
                }
                bump_key(node_map, key);
                b = b + 1;
            }
            assert(row.take(n - a - 1) =~= row);
            inc = inc + (n - a - 1) as u64;
        } else {
            assert(done + row =~= done);
        }
        a = a + 1;
    }
    let ghost t0 = tail_map@;
    let ghost tall = post_tail_keys(tails@, nodes@, shard as int, shards as int);
    let mut x: usize = 0;
    while x < tails.len()
        invariant
            x <= tails@.len(),
            n == nodes@.len(),
            shards > 0,
            tall == post_tail_keys(tails@, nodes@, shard as int, shards as int),
            tall.len() <= usize::MAX,
            forall|k: u64| t0.contains_key(k) ==> t0[k] + tall.len() <= usize::MAX,
            tail_map@ == bump(t0, tail_keys_upto(tails@, nodes@, shard as int, shards as int, x as int)),
        decreases tails@.len() - x,
    {
        let ghost done = tail_keys_upto(tails@, nodes@, shard as int, shards as int, x as int);
        let ghost row = tail_row(tails@, nodes@, x as int, shard as int, shards as int);
        proof {
            lemma_tail_keys_prefix(tails@, nodes@, shard as int, shards as int, x as int + 1);
        }
        if tails[x] as usize % shards == shard {
            let mut j: usize = 0;
            while j < n
                invariant
                    j <= n,
                    n == nodes@.len(),
                    x < tails@.len(),
                    shards > 0,
                    tails@[x as int] as int % shards as int == shard,
                    row == tail_row(tails@, nodes@, x as int, shard as int, shards as int),
                    done + row == tail_keys_upto(tails@, nodes@, shard as int, shards as int, x + 1),
                    tail_keys_upto(tails@, nodes@, shard as int, shards as int, x + 1).len() <= tall.len(),
                    tall.len() <= usize::MAX,
                    forall|k: u64| t0.contains_key(k) ==> t0[k] + tall.len() <= usize::MAX,
                    tail_map@ == bump(t0, done + row.take(j as int)),
                decreases n - j,
            {
                let key = Pairs::key(tails[x], nodes[j]);
                proof {
                    let before = done + row.take(j as int);
                    assert(row[j as int] == key);
                    assert(done + row.take(j + 1) =~= before.push(key));
                    assert(before.push(key).drop_last() =~= before);
                    lemma_bump_bound(t0, before, key);
                    assert(before.len() < (done + row).len());
                    if t0.contains_key(key) {
                        assert(t0[key] + tall.len() <= usize::MAX);
                    }
                }
                bump_key(tail_map, key);
                j = j + 1;
            }
            assert(row.take(n as int) =~= row);
        } else {
            assert(done + row =~= done);
        }
        x = x + 1;
    }
    inc
}

/// How often key `k` is counted by shards `0..s` of `shards` over the pairs
/// the first `upto` nodes of a post open.
pub open spec fn shard_sum(nodes: Seq<u32>, shards: int, k: u64, s: int, upto: int) -> nat
    decreases s,
{
    if s <= 0 {
        0
    } else {
        shard_sum(nodes, shards, k, s - 1, upto) + occurrences(node_keys_upto(nodes, s - 1, shards, upto), k)
    }
}

spec fn row_sum(nodes: Seq<u32>, shards: int, k: u64, s: int, a: int) -> nat
    decreases s,
{
    if s <= 0 {
        0
    } else {
        row_sum(nodes, shards, k, s - 1, a) + occurrences(shard_row(nodes, a, s - 1, shards), k)
    }
}

proof fn lemma_occurrences_concat(x: Seq<u64>, y: Seq<u64>, k: u64)
    ensures
        occurrences(x + y, k) == occurrences(x, k) + occurrences(y, k),
    decreases y.len(),
{
    if y.len() == 0 {
        assert(x + y =~= x);
    } else {
        assert((x + y).drop_last() =~= x + y.drop_last());
        assert((x + y).last() == y.last());
        lemma_occurrences_concat(x, y.drop_last(), k);
    }
}

proof fn lemma_shard_sum_step(nodes: Seq<u32>, shards: int, k: u64, s: int, upto: int)
    requires
        0 <= upto,
    ensures
        shard_sum(nodes, shards, k, s, upto + 1) == shard_sum(nodes, shards, k, s, upto) + row_sum(
            nodes,
            shards,
            k,
            s,
            upto,
        ),
    decreases s,
{
    if s > 0 {
        lemma_shard_sum_step(nodes, shards, k, s - 1, upto);
        lemma_occurrences_concat(
            node_keys_upto(nodes, s - 1, shards, upto),
            shard_row(nodes, upto, s - 1, shards),
            k,
        );
    }
}

proof fn lemma_row_sum(nodes: Seq<u32>, shards: int, k: u64, s: int, a: int)
    requires
        shards > 0,
        0 <= s <= shards,
        0 <= a < nodes.len(),
    ensures
        row_sum(nodes, shards, k, s, a) == if nodes[a] as int % shards < s {
            occurrences(shard_row(nodes, a, 0, 1), k)
        } else {
            0
        },
    decreases s,
{
    if s > 0 {
        lemma_row_sum(nodes, shards, k, s - 1, a);
        if nodes[a] as int % shards == s - 1 {
            assert(shard_row(nodes, a, s - 1, shards) =~= shard_row(nodes, a, 0, 1));
        } else {
            assert(shard_row(nodes, a, s - 1, shards) =~= Seq::<u64>::empty());
        }
    }
}

/// Splitting the pair counting over shards loses and repeats nothing: over
/// all `shards` shards, each key is counted as often as the post's node pairs
/// make it.
pub proof fn lemma_shards_split_pairs(nodes: Seq<u32>, shards: int, k: u64, upto: int)
    requires
        shards > 0,
        0 <= upto <= nodes.len(),
    ensures
        shard_sum(nodes, shards, k, shards, upto) == occurrences(node_keys_upto(nodes, 0, 1, upto), k),
    decreases upto,
{
    if upto == 0 {
        lemma_shard_sum_empty(nodes, shards, k, shards);
    } else {
        lemma_shards_split_pairs(nodes, shards, k, upto - 1);
        lemma_shard_sum_step(nodes, shards, k, shards, upto - 1);
        lemma_row_sum(nodes, shards, k, shards, upto - 1);
        lemma_occurrences_concat(node_keys_upto(nodes, 0, 1, upto - 1), shard_row(nodes, upto - 1, 0, 1), k);
    }
}

proof fn lemma_shard_sum_empty(nodes: Seq<u32>, shards: int, k: u64, s: int)
    ensures
        shard_sum(nodes, shards, k, s, 0) == 0,
    decreases s,
{
    if s > 0 {
        lemma_shard_sum_empty(nodes, shards, k, s - 1);
    }
}

proof fn lemma_keys_prefix(nodes: Seq<u32>, shard: int, shards: int, upto: int)
    requires
        0 <= upto <= nodes.len(),
    ensures
        node_keys_upto(nodes, shard, shards, upto).len() <= post_node_keys(nodes, shard, shards).len(),
    decreases nodes.len() - upto,
{
    if upto < nodes.len() {
        lemma_keys_prefix(nodes, shard, shards, upto + 1);
    }
}

proof fn lemma_tail_keys_prefix(tails: Seq<u32>, nodes: Seq<u32>, shard: int, shards: int, upto: int)
    requires
        0 <= upto <= tails.len(),
    ensures
        tail_keys_upto(tails, nodes, shard, shards, upto).len() <= post_tail_keys(tails, nodes, shard, shards).len(),
    decreases tails.len() - upto,
{
    if upto < tails.len() {
        lemma_tail_keys_prefix(tails, nodes, shard, shards, upto + 1);
    }
}

/// The node pair keys of the first `upto` posts of a batch that fall to
/// `shard`, post after post.
pub open spec fn batch_node_keys(batch: &Batch, shard: int, shards: int, upto: int) -> Seq<u64>
    decreases upto,
{
    if upto <= 0 {
        seq![]
    } else {
        batch_node_keys(batch, shard, shards, upto - 1) + post_node_keys(batch.nodes_of(upto - 1), shard, shards)
    }
}

/// The tail pair keys of the first `upto` posts of a batch that fall to
/// `shard`, post after post.
pub open spec fn batch_tail_keys(batch: &Batch, shard: int, shards: int, upto: int) -> Seq<u64>
    decreases upto,
{
    if upto <= 0 {
        seq![]
    } else {
        batch_tail_keys(batch, shard, shards, upto - 1) + post_tail_keys(
            batch.tails_of(upto - 1),
            batch.nodes_of(upto - 1),
            shard,
            shards,
        )
    }
}

proof fn lemma_batch_keys_prefix(batch: &Batch, shard: int, shards: int, upto: int, all: int)
    requires
        0 <= upto <= all,
    ensures
        batch_node_keys(batch, shard, shards, upto).len() <= batch_node_keys(batch, shard, shards, all).len(),
        batch_tail_keys(batch, shard, shards, upto).len() <= batch_tail_keys(batch, shard, shards, all).len(),
    decreases all - upto,
{
    if upto < all {
        lemma_batch_keys_prefix(batch, shard, shards, upto + 1, all);
    }
}

/// Counts the pairs of every post of a batch that fall to `shard` of
/// `shards`, and returns how many node pairs it counted.
pub fn count_batch(
    batch: &Batch,
    shard: usize,
    shards: usize,
    node_map: &mut FxHashMap<u64, usize>,
    tail_map: &mut FxHashMap<u64, usize>,
) -> (increments: u64)
    requires
        batch.wf(),
        shards > 0,
        batch_node_keys(batch, shard as int, shards as int, batch.node_off@.len() - 1).len() <= usize::MAX,
        batch_tail_keys(batch, shard as int, shards as int, batch.node_off@.len() - 1).len() <= usize::MAX,
        forall|k: u64|
            old(node_map)@.contains_key(k) ==> old(node_map)@[k] + batch_node_keys(
                batch,
                shard as int,
                shards as int,
                batch.node_off@.len() - 1,
            ).len() <= usize::MAX,
        forall|k: u64|
            old(tail_map)@.contains_key(k) ==> old(tail_map)@[k] + batch_tail_keys(
                batch,
                shard as int,
                shards as int,
                batch.node_off@.len() - 1,
            ).len() <= usize::MAX,
    ensures
        final(node_map)@ == bump(
            old(node_map)@,
            batch_node_keys(batch, shard as int, shards as int, batch.node_off@.len() - 1),
        ),
        final(tail_map)@ == bump(
            old(tail_map)@,
            batch_tail_keys(batch, shard as int, shards as int, batch.node_off@.len() - 1),
        ),
        increments == batch_node_keys(batch, shard as int, shards as int, batch.node_off@.len() - 1).len(),
{
    let posts = batch.len();
    let ghost m0 = node_map@;
    let ghost t0 = tail_map@;
    let ghost nall = batch_node_keys(batch, shard as int, shards as int, posts as int);
    let ghost tall = batch_tail_keys(batch, shard as int, shards as int, posts as int);
    let mut inc: u64 = 0;
    let mut p: usize = 0;
    while p < posts
        invariant
            p <= posts,
            posts == batch.node_off@.len() - 1,
            batch.wf(),
            shards > 0,
            nall == batch_node_keys(batch, shard as int, shards as int, posts as int),
            tall == batch_tail_keys(batch, shard as int, shards as int, posts as int),
            nall.len() <= usize::MAX,
            tall.len() <= usize::MAX,
            forall|k: u64| m0.contains_key(k) ==> m0[k] + nall.len() <= usize::MAX,
            forall|k: u64| t0.contains_key(k) ==> t0[k] + tall.len() <= usize::MAX,
            node_map@ == bump(m0, batch_node_keys(batch, shard as int, shards as int, p as int)),
            tail_map@ == bump(t0, batch_tail_keys(batch, shard as int, shards as int, p as int)),
            inc == batch_node_keys(batch, shard as int, shards as int, p as int).len(),
        decreases posts - p,
    {
        let ghost ndone = batch_node_keys(batch, shard as int, shards as int, p as int);
        let ghost tdone = batch_tail_keys(batch, shard as int, shards as int, p as int);
        proof {
            lemma_batch_keys_prefix(batch, shard as int, shards as int, p as int + 1, posts as int);
            assert(batch.node_off@[p as int] <= batch.node_off@[p + 1] <= batch.node_off@.last());
            assert(batch.tail_off@[p as int] <= batch.tail_off@[p + 1] <= batch.tail_off@.last());
        }
        let nodes = &batch.node_idx[batch.node_off[p] as usize..batch.node_off[p + 1] as usize];
        let tails = &batch.tail_idx[batch.tail_off[p] as usize..batch.tail_off[p + 1] as usize];
        let ghost nk = post_node_keys(nodes@, shard as int, shards as int);
        let ghost tk = post_tail_keys(tails@, nodes@, shard as int, shards as int);
        proof {
            assert(nodes@ == batch.nodes_of(p as int));
            assert(tails@ == batch.tails_of(p as int));
            assert forall|k: u64| node_map@.contains_key(k) implies node_map@[k] + nk.len() <= usize::MAX by {
                lemma_bump_bound(m0, ndone, k);
                if m0.contains_key(k) {
                    assert(m0[k] + nall.len() <= usize::MAX);
                }
            }
            assert forall|k: u64| tail_map@.contains_key(k) implies tail_map@[k] + tk.len() <= usize::MAX by {
                lemma_bump_bound(t0, tdone, k);
                if t0.contains_key(k) {
                    assert(t0[k] + tall.len() <= usize::MAX);
                }
            }
        }
        let c = count_post(nodes, tails, shard, shards, node_map, tail_map);
        proof {
            lemma_bump_concat(m0, ndone, nk);
            lemma_bump_concat(t0, tdone, tk);
        }
        inc = inc + c;
        p = p + 1;
    }
    inc
}

} // verus!
