use vstd::prelude::*;

verus! {

/// What one link `(a, b, v)` adds to row `i`: `(b, v)` when it starts there and,
/// for an undirected graph, `(a, v)` when it ends there.
pub open spec fn link_part<T>(l: (u32, u32, T), both: bool, i: int) -> Seq<(u32, T)> {
    (if l.0 as int == i {
        seq![(l.1, l.2)]
    } else {
        Seq::empty()
    }) + (if both && l.1 as int == i {
        seq![(l.0, l.2)]
    } else {
        Seq::empty()
    })
}

/// Row `i` of the adjacency that `links` describe, neighbours in link order.
pub open spec fn link_row<T>(links: Seq<(u32, u32, T)>, both: bool, i: int) -> Seq<(u32, T)>
    decreases links.len(),
{
    if links.len() == 0 {
        Seq::empty()
    } else {
        link_row(links.drop_last(), both, i) + link_part(links.last(), both, i)
    }
}

/// Every link starts at one of the first `n` nodes and, when it is stored from
/// both ends, ends at one too.
pub open spec fn links_within<T>(links: Seq<(u32, u32, T)>, both: bool, n: int) -> bool {
    forall|k: int| 0 <= k < links.len() ==> (#[trigger] links[k]).0 < n && (both ==> links[k].1 < n)
}

/// How many entries a graph of these links holds: one per link, two when each
/// link is stored from both ends.
pub open spec fn link_entries(count: nat, both: bool) -> nat {
    if both {
        2 * count
    } else {
        count
    }
}

/// Total length of the first `m` rows.
pub open spec fn rows_total<T>(links: Seq<(u32, u32, T)>, both: bool, m: int) -> nat
    decreases m,
{
    if m <= 0 {
        0
    } else {
        rows_total(links, both, m - 1) + link_row(links, both, m - 1).len()
    }
}

/// Total length of what one link adds to the first `m` rows.
pub open spec fn part_total<T>(l: (u32, u32, T), both: bool, m: int) -> nat
    decreases m,
{
    if m <= 0 {
        0
    } else {
        part_total(l, both, m - 1) + link_part(l, both, m - 1).len()
    }
}

proof fn lemma_part_total<T>(l: (u32, u32, T), both: bool, m: int)
    requires
        0 <= m,
    ensures
        part_total(l, both, m) == (if (l.0 as int) < m {
            1nat
        } else {
            0nat
        }) + (if both && (l.1 as int) < m {
            1nat
        } else {
            0nat
        }),
    decreases m,
{
    if m > 0 {
        lemma_part_total(l, both, m - 1);
    }
}

proof fn lemma_rows_total_step<T>(links: Seq<(u32, u32, T)>, both: bool, m: int)
    requires
        links.len() > 0,
        0 <= m,
    ensures
        rows_total(links, both, m) == rows_total(links.drop_last(), both, m) + part_total(
            links.last(),
            both,
            m,
        ),
    decreases m,
{
    if m > 0 {
        lemma_rows_total_step(links, both, m - 1);
    }
}

proof fn lemma_rows_total_empty<T>(links: Seq<(u32, u32, T)>, both: bool, m: int)
    requires
        links.len() == 0,
    ensures
        rows_total(links, both, m) == 0,
    decreases m,
{
    if m > 0 {
        lemma_rows_total_empty(links, both, m - 1);
    }
}

/// The rows together hold one entry per link end that is stored.
proof fn lemma_rows_total<T>(links: Seq<(u32, u32, T)>, both: bool, n: int)
    requires
        0 <= n,
        links_within(links, both, n),
    ensures
        rows_total(links, both, n) == link_entries(links.len(), both),
    decreases links.len(),
{
    if links.len() == 0 {
        lemma_rows_total_empty(links, both, n);
    } else {
        let init = links.drop_last();
        assert(links_within(init, both, n)) by {
            assert forall|k: int| 0 <= k < init.len() implies (#[trigger] init[k]).0 < n
                && (both ==> init[k].1 < n) by {
                assert(init[k] == links[k]);
            }
        }
        lemma_rows_total(init, both, n);
        lemma_rows_total_step(links, both, n);
        let l = links[links.len() - 1];
        assert(l == links.last());
        assert(l.0 < n && (both ==> l.1 < n));
        lemma_part_total(l, both, n);
        assert(part_total(l, both, n) == if both { 2nat } else { 1nat });
        assert(rows_total(init, both, n) == link_entries(init.len(), both));
        assert(init.len() + 1 == links.len());
    }
}

proof fn lemma_rows_total_monotone<T>(links: Seq<(u32, u32, T)>, both: bool, x: int, y: int)
    requires
        x <= y,
    ensures
        rows_total(links, both, x) <= rows_total(links, both, y),
    decreases y - x,
{
    if x < y {
        lemma_rows_total_monotone(links, both, x, y - 1);
    }
}

/// A row built from a prefix of the links is a prefix of the full row.
proof fn lemma_link_row_prefix<T>(links: Seq<(u32, u32, T)>, both: bool, i: int, k: int)
    requires
        0 <= k <= links.len(),
    ensures
        link_row(links.take(k), both, i).len() <= link_row(links, both, i).len(),
    decreases links.len() - k,
{
    if k < links.len() {
        lemma_link_row_prefix(links, both, i, k + 1);
        assert(links.take(k + 1).drop_last() =~= links.take(k));
    } else {
        assert(links.take(k) =~= links);
    }
}

/// The slots `off[r] .. fill[r]` of each row hold `rows(r)`.
spec fn filled<T>(
    off: Seq<usize>,
    fill: Seq<usize>,
    col: Seq<u32>,
    val: Seq<T>,
    rows: spec_fn(int) -> Seq<(u32, T)>,
    n: int,
) -> bool {
    &&& fill.len() == n
    &&& forall|r: int| 0 <= r < n ==> #[trigger] fill[r] == off[r] + rows(r).len()
    &&& forall|r: int| 0 <= r < n ==> #[trigger] fill[r] <= off[r + 1]
    &&& forall|r: int, t: int|
        0 <= r < n && 0 <= t < rows(r).len() ==> col[#[trigger] (off[r] + t)] == (#[trigger] rows(
            r,
        )[t]).0 && val[off[r] + t] == rows(r)[t].1
}

spec fn offsets_ok(off: Seq<usize>, n: int, total: int) -> bool {
    &&& off.len() == n + 1
    &&& off[0] == 0
    &&& off[n] == total
    &&& forall|x: int, y: int| 0 <= x <= y <= n ==> off[x] <= off[y]
}

spec fn pushed<T>(rows: spec_fn(int) -> Seq<(u32, T)>, row: int, e: (u32, T)) -> spec_fn(int) -> Seq<
    (u32, T),
> {
    |r: int|
        if r == row {
            rows(r).push(e)
        } else {
            rows(r)
        }
}

/// Writing the next entry of one row leaves every other row as it was.
proof fn lemma_place<T>(
    off: Seq<usize>,
    fill: Seq<usize>,
    col: Seq<u32>,
    val: Seq<T>,
    rows: spec_fn(int) -> Seq<(u32, T)>,
    n: int,
    total: int,
    row: int,
    e: (u32, T),
)
    requires
        offsets_ok(off, n, total),
        col.len() == total,
        val.len() == total,
        filled(off, fill, col, val, rows, n),
        0 <= row < n,
        fill[row] < off[row + 1],
    ensures
        filled(
            off,
            fill.update(row, (fill[row] + 1) as usize),
            col.update(fill[row] as int, e.0),
            val.update(fill[row] as int, e.1),
            pushed(rows, row, e),
            n,
        ),
{
    let s = fill[row] as int;
    let fill2 = fill.update(row, (fill[row] + 1) as usize);
    let col2 = col.update(s, e.0);
    let val2 = val.update(s, e.1);
    let rows2 = pushed(rows, row, e);
    assert forall|r: int, t: int|
        0 <= r < n && 0 <= t < rows2(r).len() implies col2[#[trigger] (off[r] + t)] == (
    #[trigger] rows2(r)[t]).0 && val2[off[r] + t] == rows2(r)[t].1 by {
        assert(fill[row] == off[row] + rows(row).len());
        assert(fill[r] == off[r] + rows(r).len());
        assert(fill[r] <= off[r + 1]);
        if r == row {
            assert(rows2(r) == rows(r).push(e));
            if t == rows(r).len() {
                assert(off[r] + t == s);
            } else {
                assert(rows2(r)[t] == rows(r)[t]);
                assert(col[off[r] + t] == rows(r)[t].0);
            }
        } else {
            assert(rows2(r) == rows(r));
            let i = off[r] + t;
            if r < row {
                assert(off[r + 1] <= off[row]);
            } else {
                assert(off[row + 1] <= off[r]);
            }
            assert(i != s);
            assert(col[off[r] + t] == rows(r)[t].0);
        }
    }
    assert forall|r: int| 0 <= r < n implies #[trigger] fill2[r] == off[r] + rows2(r).len() by {
        assert(fill[r] == off[r] + rows(r).len());
    }
    assert forall|r: int| 0 <= r < n implies #[trigger] fill2[r] <= off[r + 1] by {
        assert(fill[r] <= off[r + 1]);
    }
}

/// The rows that offsets `off` cut out of `col` and `val`: row `i` pairs the
/// entries from `off[i]` up to `off[i + 1]`.
pub open spec fn runs_of<T>(off: Seq<usize>, col: Seq<u32>, val: Seq<T>) -> Seq<Seq<(u32, T)>> {
    Seq::new(
        (off.len() - 1) as nat,
        |i: int| Seq::new((off[i + 1] - off[i]) as nat, |t: int| (col[off[i] + t], val[off[i] + t])),
    )
}

/// Offsets that start at zero, never fall and end at `total`.
pub open spec fn runs_ok(off: Seq<usize>, total: int) -> bool {
    &&& off.len() >= 1
    &&& off[0] == 0
    &&& off[off.len() - 1] == total
    &&& forall|x: int, y: int| 0 <= x <= y < off.len() ==> off[x] <= off[y]
}

/// A sparse adjacency in compressed-row form: row `i` holds the neighbours of
/// node `i` with the value stored on each link.
pub struct Csr<T> {
    off: Vec<usize>,
    col: Vec<u32>,
    val: Vec<T>,
}

impl<T> Csr<T> {
    #[verifier::type_invariant]
    spec fn well_formed(self) -> bool {
        &&& 1 <= self.off@.len() <= usize::MAX
        &&& offsets_ok(self.off@, self.off@.len() - 1, self.col@.len() as int)
        &&& self.col@.len() == self.val@.len()
    }

    /// Row `i` as `(neighbour, value)` entries.
    pub closed spec fn row_view(&self, i: int) -> Seq<(u32, T)> {
        Seq::new(
            (self.off@[i + 1] - self.off@[i]) as nat,
            |t: int| (self.col@[self.off@[i] + t], self.val@[self.off@[i] + t]),
        )
    }

    /// How many entries the graph stores over all its rows.
    pub closed spec fn entries(&self) -> nat {
        self.col@.len()
    }

    /// The number of rows.
    pub closed spec fn rows(&self) -> nat {
        (self.off@.len() - 1) as nat
    }
}

impl<T> View for Csr<T> {
    type V = Seq<Seq<(u32, T)>>;

    open spec fn view(&self) -> Seq<Seq<(u32, T)>> {
        Seq::new(self.rows(), |i: int| self.row_view(i))
    }
}

fn zeros(n: usize) -> (v: Vec<usize>)
    ensures
        v@.len() == n,
        forall|i: int| 0 <= i < n ==> v@[i] == 0,
{
    let mut v: Vec<usize> = Vec::new();
    let mut i: usize = 0;
    while i < n
        invariant
            i <= n,
            v@.len() == i,
            forall|j: int| 0 <= j < i ==> v@[j] == 0,
        decreases n - i,
    {
        v.push(0);
        i = i + 1;
    }
    v
}

impl<T: Copy> Csr<T> {
    /// The undirected graph of `links`: each link is stored in the rows of
    /// both its ends.
    pub fn symmetric(n: usize, links: &[(u32, u32, T)]) -> (g: Csr<T>)
        requires
            n < usize::MAX,
            2 * links@.len() <= usize::MAX,
            links_within(links@, true, n as int),
        ensures
            g@.len() == n,
            forall|i: int| 0 <= i < n ==> #[trigger] g@[i] == link_row(links@, true, i),
            g.entries() == 2 * links@.len(),
    {
        Csr::build(n, links, true)
    }

    /// The directed graph of `links`: each link is stored in the row of its
    /// first end only.
    pub fn directed(n: usize, links: &[(u32, u32, T)]) -> (g: Csr<T>)
        requires
            n < usize::MAX,
            2 * links@.len() <= usize::MAX,
            links_within(links@, false, n as int),
        ensures
            g@.len() == n,
            forall|i: int| 0 <= i < n ==> #[trigger] g@[i] == link_row(links@, false, i),
            g.entries() == links@.len(),
    {
        Csr::build(n, links, false)
    }

    fn build(n: usize, links: &[(u32, u32, T)], both: bool) -> (g: Csr<T>)
        requires
            n < usize::MAX,
            2 * links@.len() <= usize::MAX,
            links_within(links@, both, n as int),
        ensures
            g@.len() == n,
            forall|i: int| 0 <= i < n ==> #[trigger] g@[i] == link_row(links@, both, i),
            g.entries() == link_entries(links@.len(), both),
    {
        let ghost ls = links@;
        let len = links.len();
        // count the entries of each row, one slot to the right
        let mut off = zeros(n + 1);
        let mut k: usize = 0;
        while k < len
            invariant
                len == ls.len(),
                ls == links@,
                2 * len <= usize::MAX,
                links_within(ls, both, n as int),
                k <= len,
                off@.len() == n + 1,
                off@[0] == 0,
                forall|r: int|
                    0 <= r < n ==> #[trigger] off@[r + 1] == link_row(ls.take(k as int), both, r).len(),
                forall|r: int| 0 <= r < n ==> #[trigger] off@[r + 1] <= 2 * k,
            decreases len - k,
        {
            let (a, b, _) = links[k];
            assert(ls.take(k + 1).drop_last() =~= ls.take(k as int));
            assert(ls.take(k + 1).last() == ls[k as int]);
            assert(ls[k as int].0 < n && (both ==> ls[k as int].1 < n));
            off[a as usize + 1] = off[a as usize + 1] + 1;
            if both {
                off[b as usize + 1] = off[b as usize + 1] + 1;
            }
            k = k + 1;
        }
        assert(ls.take(len as int) =~= ls);
        assert forall|x: int| 0 < x <= n implies #[trigger] off@[x] == link_row(ls, both, x - 1).len() by {
            assert(off@[(x - 1) + 1] == link_row(ls.take(len as int), both, x - 1).len());
        }
        proof {
            lemma_rows_total(ls, both, n as int);
        }
        // running sums turn the counts into row starts
        let mut total: usize = 0;
        let mut r: usize = 0;
        while r < n
            invariant
                r <= n,
                off@.len() == n + 1,
                off@[0] == 0,
                total == rows_total(ls, both, r as int),
                rows_total(ls, both, n as int) == link_entries(ls.len(), both),
                link_entries(ls.len(), both) <= usize::MAX,
                forall|x: int| 0 <= x <= r ==> #[trigger] off@[x] == rows_total(ls, both, x),
                forall|x: int| r < x <= n ==> #[trigger] off@[x] == link_row(ls, both, x - 1).len(),
            decreases n - r,
        {
            proof {
                lemma_rows_total_monotone(ls, both, r + 1, n as int);
            }
            total = total + off[r + 1];
            off[r + 1] = total;
            r = r + 1;
        }
        assert forall|x: int, y: int| 0 <= x <= y <= n implies off@[x] <= off@[y] by {
            lemma_rows_total_monotone(ls, both, x, y);
        }
        assert(offsets_ok(off@, n as int, total as int));
        // each row fills forward from its start
        let mut fill: Vec<usize> = Vec::new();
        let mut r: usize = 0;
        while r < n
            invariant
                r <= n,
                off@.len() == n + 1,
                fill@.len() == r,
                forall|x: int| 0 <= x < r ==> #[trigger] fill@[x] == off@[x],
            decreases n - r,
        {
            fill.push(off[r]);
            r = r + 1;
        }
        let mut col: Vec<u32> = Vec::new();
        let mut val: Vec<T> = Vec::new();
        let mut k: usize = 0;
        while k < len
            invariant
                len == ls.len(),
                ls == links@,
                k <= len,
                col@.len() == link_entries(k as nat, both),
                val@.len() == col@.len(),
                2 * len <= usize::MAX,
            decreases len - k,
        {
            let (_, _, v) = links[k];
            col.push(0);
            val.push(v);
            if both {
                col.push(0);
                val.push(v);
            }
            k = k + 1;
        }
        let ghost rows0 = |i: int| link_row(ls.take(0), both, i);
        assert forall|i: int| 0 <= i < n implies #[trigger] rows0(i).len() == 0 by {
            assert(ls.take(0).len() == 0);
        }
        assert(filled(off@, fill@, col@, val@, rows0, n as int));
        let mut k: usize = 0;
        while k < len
            invariant
                len == ls.len(),
                ls == links@,
                links_within(ls, both, n as int),
                k <= len,
                offsets_ok(off@, n as int, total as int),
                total == link_entries(len as nat, both),
                forall|x: int| 0 <= x <= n ==> #[trigger] off@[x] == rows_total(ls, both, x),
                col@.len() == total,
                val@.len() == total,
                filled(
                    off@,
                    fill@,
                    col@,
                    val@,
                    |i: int| link_row(ls.take(k as int), both, i),
                    n as int,
                ),
            decreases len - k,
        {
            let (a, b, v) = links[k];
            let ghost rows_k = |i: int| link_row(ls.take(k as int), both, i);
            let ghost rows_next = |i: int| link_row(ls.take(k + 1), both, i);
            assert(ls.take(k + 1).drop_last() =~= ls.take(k as int));
            assert(ls.take(k + 1).last() == ls[k as int]);
            assert(ls[k as int] == (a, b, v));
            assert(ls[k as int].0 < n && (both ==> ls[k as int].1 < n));
            assert forall|i: int| 0 <= i < n implies #[trigger] rows_next(i).len() <= off@[i + 1]
                - off@[i] by {
                lemma_link_row_prefix(ls, both, i, k + 1);
            }
            let ai = a as usize;
            let s = fill[ai];
            assert(rows_next(ai as int) == rows_k(ai as int) + link_part(ls[k as int], both, ai as int));
            assert(link_part(ls[k as int], both, ai as int).len() >= 1);
            assert(rows_next(ai as int).len() <= off@[ai as int + 1] - off@[ai as int]);
            assert(fill@[ai as int] == off@[ai as int] + rows_k(ai as int).len());
            proof {
                lemma_place(off@, fill@, col@, val@, rows_k, n as int, total as int, ai as int, (b, v));
            }
            col.set(s, b);
            val.set(s, v);
            fill.set(ai, s + 1);
            let ghost rows_a = pushed(rows_k, ai as int, (b, v));
            if both {
                let bi = b as usize;
                let s2 = fill[bi];
                assert(rows_next(bi as int) == rows_k(bi as int) + link_part(ls[k as int], both, bi as int));
                assert(rows_a(bi as int).len() + 1 == rows_next(bi as int).len());
                assert(rows_next(bi as int).len() <= off@[bi as int + 1] - off@[bi as int]);
                proof {
                    lemma_place(off@, fill@, col@, val@, rows_a, n as int, total as int, bi as int, (a, v));
                }
                col.set(s2, a);
                val.set(s2, v);
                fill.set(bi, s2 + 1);
                let ghost rows_b = pushed(rows_a, bi as int, (a, v));
                assert(rows_b =~= rows_next) by {
                    assert forall|i: int| #[trigger] rows_b(i) == rows_next(i) by {
                        assert(rows_b(i) =~= rows_next(i));
                    }
                }
            } else {
                assert(rows_a =~= rows_next) by {
                    assert forall|i: int| #[trigger] rows_a(i) == rows_next(i) by {
                        assert(rows_a(i) =~= rows_next(i));
                    }
                }
            }
            k = k + 1;
        }
        assert(ls.take(len as int) =~= ls);
        let ghost rows_f = |i: int| link_row(ls.take(len as int), both, i);
        assert(filled(off@, fill@, col@, val@, rows_f, n as int));
        let g = Csr { off, col, val };
        assert forall|i: int| 0 <= i < n implies #[trigger] g@[i] == link_row(ls, both, i) by {
            let want = link_row(ls, both, i);
            assert(off@[i + 1] - off@[i] == want.len());
            assert(rows_f(i) == want);
            assert(fill@[i] == off@[i] + rows_f(i).len());
            assert forall|t: int| 0 <= t < want.len() implies g.row_view(i)[t] == want[t] by {
                assert(rows_f(i)[t] == want[t]);
                assert(g.col@[off@[i] + t] == rows_f(i)[t].0);
                assert(g.val@[off@[i] + t] == rows_f(i)[t].1);
            }
            assert(g.row_view(i) =~= want);
        }
        g
    }

    /// How many entries the graph stores.
    pub fn len(&self) -> (l: usize)
        ensures
            l == self.entries(),
    {
        self.col.len()
    }

    /// How many neighbours row `i` holds.
    pub fn degree(&self, i: usize) -> (d: usize)
        requires
            i < self@.len(),
        ensures
            d == self@[i as int].len(),
    {
        proof {
            use_type_invariant(self);
        }
        self.off[i + 1] - self.off[i]
    }

    /// The offsets, neighbours and values the rows are stored in.
    pub fn into_runs(self) -> (r: (Vec<usize>, Vec<u32>, Vec<T>))
        ensures
            runs_ok(r.0@, r.1@.len() as int),
            r.1@.len() == r.2@.len(),
            r.1@.len() == self.entries(),
            runs_of(r.0@, r.1@, r.2@) == self@,
    {
        proof {
            use_type_invariant(&self);
        }
        let ghost rows = self@;
        let Csr { off, col, val } = self;
        assert(runs_of(off@, col@, val@) =~= rows);
        (off, col, val)
    }

    /// Row `i` as `(neighbour, value)` entries, in the order they were stored.
    pub fn row(&self, i: usize) -> (out: Vec<(u32, T)>)
        requires
            i < self@.len(),
        ensures
            out@ == self@[i as int],
    {
        proof {
            use_type_invariant(self);
        }
        let lo = self.off[i];
        let hi = self.off[i + 1];
        let mut out: Vec<(u32, T)> = Vec::new();
        let mut j = lo;
        while j < hi
            invariant
                lo <= j <= hi,
                hi <= self.col@.len(),
                self.col@.len() == self.val@.len(),
                lo == self.off@[i as int],
                hi == self.off@[i + 1],
                out@.len() == j - lo,
                forall|t: int| 0 <= t < j - lo ==> #[trigger] out@[t] == self.row_view(i as int)[t],
            decreases hi - j,
        {
            out.push((self.col[j], self.val[j]));
            j = j + 1;
        }
        assert(out@ =~= self.row_view(i as int));
        out
    }
}

/// Every entry of a graph comes from a link end: the rows together hold
/// exactly the stored entries.
pub proof fn lemma_entries_are_row_lengths<T>(links: Seq<(u32, u32, T)>, both: bool, n: int)
    requires
        0 <= n,
        links_within(links, both, n),
    ensures
        rows_total(links, both, n) == link_entries(links.len(), both),
{
    lemma_rows_total(links, both, n);
}

} // verus!
