use rustc_hash::FxHashMap;
use vstd::prelude::*;

use crate::communities::{lemma_occurrences_positive, lemma_occurrences_step, occurrences, used};
use crate::pairs::{key_hi, key_lo, lemma_key_round_trip, pair_key, Pairs};
use crate::fxmap::{hex_map_get, hex_map_insert, tally_entries, tally_get, tally_insert};
use crate::sorting::{order_by_key, pair_le, pair_lt, positions, sort_pairs, sorted_pairs};

verus! {

/// How a layout is cut into hex territories.
pub struct CutParams {
    /// Hexes across the layout's width.
    pub hex_cols: usize,
    /// Rings of neighbours the density is smoothed over.
    pub rings: usize,
    /// Basins with fewer nodes than this are merged into a neighbour.
    pub min_nodes: usize,
}

/// The six axial directions, in the order neighbours are visited.
pub open spec fn dirs() -> Seq<(i32, i32)> {
    seq![(1i32, 0i32), (0i32, 1i32), (-1i32, 1i32), (-1i32, 0i32), (0i32, -1i32), (1i32, -1i32)]
}

pub open spec fn iabs(x: int) -> int {
    if x < 0 {
        -x
    } else {
        x
    }
}

/// The number of steps between two hexes in axial coordinates.
pub open spec fn hex_dist(a: (i32, i32), b: (i32, i32)) -> int {
    let dq = a.0 - b.0;
    let dr = a.1 - b.1;
    vstd::math::max(iabs(dq), vstd::math::max(iabs(dr), iabs(dq + dr)))
}

/// Axial coordinates ordered by `q`, then `r`.
pub open spec fn hex_lt(a: (i32, i32), b: (i32, i32)) -> bool {
    a.0 < b.0 || (a.0 == b.0 && a.1 < b.1)
}

/// Every hex comes strictly before the ones after it.
pub open spec fn strictly_sorted(s: Seq<(i32, i32)>) -> bool {
    forall|i: int, j: int| 0 <= i < j < s.len() ==> hex_lt(#[trigger] s[i], #[trigger] s[j])
}

/// A hex whose coordinates stay inside `i32` when moved `reach` steps.
pub open spec fn fits(h: (i32, i32), reach: int) -> bool {
    &&& i32::MIN + reach <= h.0 <= i32::MAX - reach
    &&& i32::MIN + reach <= h.1 <= i32::MAX - reach
}

/// How many hexes of a disc of `n` rings lie in the columns before `d`, the
/// columns counted from `-n`: column `x` holds `2n + 1 - |x|` of them.
pub open spec fn cells_before(n: int, d: int) -> int
    decreases d + n,
{
    if d <= -n {
        0
    } else {
        cells_before(n, d - 1) + (2 * n + 1 - iabs(d - 1))
    }
}

/// Twice the number of hexes in the columns before `d`, in closed form.
spec fn twice_cells(n: int, d: int) -> int {
    if d <= 0 {
        2 * (d + n) * (2 * n + 1) + (d + n) * (d - 1 - n)
    } else {
        2 * n * (2 * n + 1) - n * (n + 1) + 2 * d * (2 * n + 1) - d * (d - 1)
    }
}

proof fn lemma_cells_closed(n: int, d: int)
    requires
        0 <= n,
        -n <= d <= n + 1,
    ensures
        2 * cells_before(n, d) == twice_cells(n, d),
    decreases d + n,
{
    if d > -n {
        lemma_cells_closed(n, d - 1);
        if d <= 0 {
            assert(2 * (d - 1 + n) * (2 * n + 1) + (d - 1 + n) * (d - 2 - n) + 2 * (2 * n + 1 + (d - 1)) == 2
                * (d + n) * (2 * n + 1) + (d + n) * (d - 1 - n)) by (nonlinear_arith);
        } else if d == 1 {
            assert(2 * (0 + n) * (2 * n + 1) + (0 + n) * (0 - 1 - n) + 2 * (2 * n + 1) == 2 * n * (2 * n + 1) - n
                * (n + 1) + 2 * 1 * (2 * n + 1) - 1 * (1 - 1)) by (nonlinear_arith);
        } else {
            assert(2 * n * (2 * n + 1) - n * (n + 1) + 2 * (d - 1) * (2 * n + 1) - (d - 1) * (d - 2) + 2 * (2 * n
                + 1 - (d - 1)) == 2 * n * (2 * n + 1) - n * (n + 1) + 2 * d * (2 * n + 1) - d * (d - 1))
                by (nonlinear_arith);
        }
    } else {
        assert(d == -n);
        assert(twice_cells(n, d) == 0) by (nonlinear_arith)
            requires
                d == -n,
                0 <= n,
        ;
    }
}

/// A disc of `n` rings holds `1 + 3n(n + 1)` hexes.
pub proof fn lemma_disc_count(n: int)
    requires
        0 <= n,
    ensures
        cells_before(n, n + 1) == 1 + 3 * n * (n + 1),
{
    lemma_cells_closed(n, n + 1);
    assert(twice_cells(n, n + 1) == 2 * (1 + 3 * n * (n + 1))) by (nonlinear_arith)
        requires
            0 <= n,
    ;
}

/// The hexes within `rings` steps of `(q, r)`, ordered by `q` then `r`: all
/// `1 + 3 rings (rings + 1)` of them.
pub fn disc(q: i32, r: i32, rings: usize) -> (out: Vec<(i32, i32)>)
    requires
        rings < 0x4000_0000,
        fits((q, r), rings as int),
    ensures
        strictly_sorted(out@),
        forall|i: int| 0 <= i < out@.len() ==> hex_dist(#[trigger] out@[i], (q, r)) <= rings,
        forall|h: (i32, i32)| hex_dist(h, (q, r)) <= rings ==> #[trigger] out@.contains(h),
        out@.len() <= (2 * rings + 1) * (2 * rings + 1),
        out@.len() == 1 + 3 * rings * (rings + 1),
{
    let n = rings as i32;
    let ghost c = (q, r);
    let ghost side = 2 * n + 1;
    let mut out: Vec<(i32, i32)> = Vec::new();
    let mut dq: i32 = -n;
    while dq <= n
        invariant
            n == rings,
            0 <= n < 0x4000_0000,
            fits(c, n as int),
            c == (q, r),
            side == 2 * n + 1,
            -n <= dq <= n + 1,
            strictly_sorted(out@),
            out@.len() <= (dq + n) * side,
            out@.len() == cells_before(n as int, dq as int),
            forall|i: int|
                0 <= i < out@.len() ==> hex_dist(#[trigger] out@[i], c) <= n && out@[i].0 - q < dq,
            forall|h: (i32, i32)|
                hex_dist(h, c) <= n && h.0 - q < dq ==> #[trigger] out@.contains(h),
        decreases n + 1 - dq,
    {
        let lo = if -n > -dq - n {
            -n
        } else {
            -dq - n
        };
        let hi = if n < -dq + n {
            n
        } else {
            -dq + n
        };
        let ghost start = out@.len();
        let mut dr: i32 = lo;
        while dr <= hi
            invariant
                n == rings,
                0 <= n < 0x4000_0000,
                fits(c, n as int),
                c == (q, r),
                side == 2 * n + 1,
                -n <= dq <= n,
                lo == vstd::math::max(-n as int, -dq - n),
                hi == vstd::math::min(n as int, -dq + n),
                lo <= dr || lo > hi,
                dr <= hi + 1 || lo > hi,
                dr == lo || lo <= dr,
                start <= (dq + n) * side,
                start == cells_before(n as int, dq as int),
                lo <= hi,
                out@.len() == start + (dr - lo),
                -n <= lo,
                hi <= n,
                strictly_sorted(out@),
                forall|i: int|
                    0 <= i < out@.len() ==> hex_dist(#[trigger] out@[i], c) <= n && (out@[i].0 - q
                        < dq || (out@[i].0 - q == dq && out@[i].1 - r < dr)),
                forall|h: (i32, i32)|
                    hex_dist(h, c) <= n && (h.0 - q < dq || (h.0 - q == dq && h.1 - r < dr))
                        ==> #[trigger] out@.contains(h),
            decreases hi + 1 - dr,
        {
            let h = (q + dq, r + dr);
            let ghost before = out@;
            out.push(h);
            assert forall|i: int, j: int| 0 <= i < j < out@.len() implies hex_lt(
                #[trigger] out@[i],
                #[trigger] out@[j],
            ) by {
                if j < before.len() {
                    assert(before[i] == out@[i] && before[j] == out@[j]);
                } else {
                    assert(out@[i] == before[i]);
                }
            }
            assert forall|x: (i32, i32)|
                hex_dist(x, c) <= n && (x.0 - q < dq || (x.0 - q == dq && x.1 - r < dr + 1))
                    implies #[trigger] out@.contains(x) by {
                if x.0 - q == dq && x.1 - r == dr {
                    assert(out@[before.len() as int] == x);
                } else {
                    assert(before.contains(x));
                    let i = choose|i: int| 0 <= i < before.len() && before[i] == x;
                    assert(out@[i] == x);
                }
            }
            dr = dr + 1;
        }
        assert(hi - lo + 1 == 2 * n + 1 - iabs(dq as int));
        assert(out@.len() <= (dq + 1 + n) * side) by (nonlinear_arith)
            requires
                out@.len() <= start + (hi + 1 - lo),
                start <= (dq + n) * side,
                hi - lo <= 2 * n,
                side == 2 * n + 1,
                lo <= hi + 1,
        ;
        dq = dq + 1;
    }
    proof {
        lemma_disc_count(n as int);
    }
    out
}

/// The number of steps between hexes `a` and `b`.
pub fn hex_distance(a: (i32, i32), b: (i32, i32)) -> (d: i32)
    requires
        i32::MIN < a.0 - b.0 <= i32::MAX,
        i32::MIN < a.1 - b.1 <= i32::MAX,
        i32::MIN < (a.0 - b.0) + (a.1 - b.1) <= i32::MAX,
    ensures
        d == hex_dist(a, b),
{
    let (dq, dr) = (a.0 - b.0, a.1 - b.1);
    let x = if dq < 0 {
        -dq
    } else {
        dq
    };
    let y = if dr < 0 {
        -dr
    } else {
        dr
    };
    let s = dq + dr;
    let z = if s < 0 {
        -s
    } else {
        s
    };
    let m = if x > y {
        x
    } else {
        y
    };
    if m > z {
        m
    } else {
        z
    }
}

/// Both coordinates lie within `bound` of the origin.
pub open spec fn within(h: (i32, i32), bound: int) -> bool {
    -bound <= h.0 <= bound && -bound <= h.1 <= bound
}

/// How far from the origin an occupied hex may lie: far enough in that every
/// cell within two discs of it keeps its axial coordinates, and the distance
/// sums between any two such cells, inside `i32`.
pub open spec fn max_coord() -> int {
    0x1eff_ffff
}

/// How many rings the smoothing may span.
pub open spec fn max_rings() -> int {
    0x0100_0000
}

/// How many hexes, counting each disc in full, a cut may span.
pub open spec fn max_hexes() -> int {
    0x1000_0000
}

/// The cells of a disc of `rings` rings, bounded by its enclosing square.
pub open spec fn disc_bound(rings: int) -> int {
    (2 * rings + 1) * (2 * rings + 1)
}

/// A hex as a pair of unsigned integers that sorts the same way.
spec fn hex_key(h: (i32, i32)) -> (u64, u64) {
    ((h.0 + 0x8000_0000) as u64, (h.1 + 0x8000_0000) as u64)
}

spec fn unkey(k: (u64, u64)) -> (i32, i32) {
    ((k.0 - 0x8000_0000) as i32, (k.1 - 0x8000_0000) as i32)
}

spec fn key_within(k: (u64, u64), bound: int) -> bool {
    &&& 0x8000_0000 - bound <= k.0 <= 0x8000_0000 + bound
    &&& 0x8000_0000 - bound <= k.1 <= 0x8000_0000 + bound
}

proof fn lemma_hex_key(a: (i32, i32), b: (i32, i32))
    ensures
        unkey(hex_key(a)) == a,
        pair_le(hex_key(a), hex_key(b)) <==> (a == b || hex_lt(a, b)),
        hex_key(a) == hex_key(b) ==> a == b,
{
}

proof fn lemma_unkey(k: (u64, u64), l: (u64, u64), bound: int)
    requires
        0 <= bound < 0x8000_0000,
        key_within(k, bound),
        key_within(l, bound),
    ensures
        hex_key(unkey(k)) == k,
        within(unkey(k), bound),
        pair_le(k, l) && k != l ==> hex_lt(unkey(k), unkey(l)),
        unkey(k) == unkey(l) ==> k == l,
{
}

fn key_of(h: (i32, i32)) -> (k: (u64, u64))
    ensures
        k == hex_key(h),
{
    (((h.0 as i64) + 0x8000_0000i64) as u64, ((h.1 as i64) + 0x8000_0000i64) as u64)
}

fn hex_of(k: (u64, u64)) -> (h: (i32, i32))
    requires
        key_within(k, 0x7fff_ffff),
    ensures
        h == unkey(k),
{
    (((k.0 as i64) - 0x8000_0000i64) as i32, ((k.1 as i64) - 0x8000_0000i64) as i32)
}

/// Cell `c` lies within `rings` steps of an occupied hex.
#[verifier::opaque]
pub open spec fn near_occupied(occupied: Seq<(i32, i32)>, rings: int, c: (i32, i32)) -> bool {
    exists|t: int| 0 <= t < occupied.len() && hex_dist(c, occupied[t]) <= rings
}

/// The hexes of every disc around an occupied hex, each once, in order.
#[verifier::spinoff_prover]
#[verifier::rlimit(60)]
fn hex_set(occupied: &[(i32, i32)], rings: usize) -> (hexes: Vec<(i32, i32)>)
    requires
        rings <= max_rings(),
        forall|t: int| 0 <= t < occupied@.len() ==> within(#[trigger] occupied@[t], max_coord()),
        occupied@.len() * disc_bound(rings as int) <= max_hexes(),
    ensures
        strictly_sorted(hexes@),
        hexes@.len() <= occupied@.len() * disc_bound(rings as int),
        forall|t: int| 0 <= t < occupied@.len() ==> hexes@.contains(#[trigger] occupied@[t]),
        forall|i: int| 0 <= i < hexes@.len() ==> within(#[trigger] hexes@[i], max_coord() + rings),
        forall|c: (i32, i32)| #[trigger] hexes@.contains(c) <==> near_occupied(occupied@, rings as int, c),
{
    broadcast use vstd::seq_lib::group_to_multiset_ensures;

    let ghost bound = max_coord() + rings;
    let ghost db = disc_bound(rings as int);
    let mut keys: Vec<(u64, u64)> = Vec::new();
    let mut t: usize = 0;
    while t < occupied.len()
        invariant
            t <= occupied@.len(),
            rings <= max_rings(),
            bound == max_coord() + rings,
            db == disc_bound(rings as int),
            forall|u: int| 0 <= u < occupied@.len() ==> within(#[trigger] occupied@[u], max_coord()),
            occupied@.len() * db <= max_hexes(),
            keys@.len() <= t * db,
            forall|p: int| 0 <= p < keys@.len() ==> key_within(#[trigger] keys@[p], bound),
            forall|u: int| 0 <= u < t ==> keys@.contains(#[trigger] hex_key(occupied@[u])),
            forall|c: (i32, i32)|
                #![trigger keys@.contains(hex_key(c))]
                (exists|u: int| 0 <= u < t && hex_dist(c, occupied@[u]) <= rings) ==> keys@.contains(hex_key(c)),
            forall|p: int|
                0 <= p < keys@.len() ==> exists|u: int|
                    0 <= u < t && hex_dist(unkey(#[trigger] keys@[p]), occupied@[u]) <= rings,
        decreases occupied@.len() - t,
    {
        let (q, r) = occupied[t];
        assert(within(occupied@[t as int], max_coord()));
        let d = disc(q, r, rings);
        assert(hex_dist((q, r), (q, r)) == 0);
        assert(d@.contains((q, r)));
        let ghost before = keys@;
        let mut i: usize = 0;
        while i < d.len()
            invariant
                i <= d@.len(),
                rings <= max_rings(),
                bound == max_coord() + rings,
                within((q, r), max_coord()),
                forall|x: int| 0 <= x < d@.len() ==> hex_dist(#[trigger] d@[x], (q, r)) <= rings,
                keys@.len() == before.len() + i,
                keys@.subrange(0, before.len() as int) == before,
                forall|p: int| 0 <= p < keys@.len() ==> key_within(#[trigger] keys@[p], bound),
                forall|x: int| 0 <= x < i ==> keys@.contains(#[trigger] hex_key(d@[x])),
                forall|p: int|
                    0 <= p < keys@.len() ==> exists|u: int|
                        0 <= u < t + 1 && hex_dist(unkey(#[trigger] keys@[p]), occupied@[u]) <= rings,
                occupied@[t as int] == (q, r),
            decreases d@.len() - i,
        {
            let h = d[i];
            assert(hex_dist(h, (q, r)) <= rings);
            let ghost prev = keys@;
            keys.push(key_of(h));
            assert forall|x: int| 0 <= x < i + 1 implies keys@.contains(#[trigger] hex_key(d@[x])) by {
                if x == i {
                    assert(keys@[prev.len() as int] == hex_key(d@[x]));
                } else {
                    let p = choose|p: int| 0 <= p < prev.len() && prev[p] == hex_key(d@[x]);
                    assert(keys@[p] == prev[p]);
                }
            }
            assert(keys@.subrange(0, before.len() as int) =~= before) by {
                assert(prev.subrange(0, before.len() as int) == before);
            }
            assert forall|p: int| 0 <= p < keys@.len() implies exists|u: int|
                0 <= u < t + 1 && hex_dist(unkey(#[trigger] keys@[p]), occupied@[u]) <= rings by {
                if p < prev.len() {
                    assert(keys@[p] == prev[p]);
                } else {
                    lemma_hex_key(h, h);
                    assert(unkey(keys@[p]) == h);
                    assert(hex_dist(h, occupied@[t as int]) <= rings);
                }
            }
            i = i + 1;
        }
        assert forall|u: int| 0 <= u < t + 1 implies keys@.contains(#[trigger] hex_key(occupied@[u])) by {
            if u == t {
                let x = choose|x: int| 0 <= x < d@.len() && d@[x] == (q, r);
                assert(keys@.contains(hex_key(d@[x])));
            } else {
                let p = choose|p: int| 0 <= p < before.len() && before[p] == hex_key(occupied@[u]);
                assert(keys@[p] == before[p]);
            }
        }
        assert(keys@.len() <= (t + 1) * db) by (nonlinear_arith)
            requires
                keys@.len() <= t * db + d@.len(),
                d@.len() <= db,
        ;
        assert forall|c: (i32, i32)|
            (exists|u: int| 0 <= u < t + 1 && hex_dist(c, occupied@[u]) <= rings) implies keys@.contains(
            #[trigger] hex_key(c),
        ) by {
            let u = choose|u: int| 0 <= u < t + 1 && hex_dist(c, occupied@[u]) <= rings;
            if u == t {
                assert(d@.contains(c));
                let x = choose|x: int| 0 <= x < d@.len() && d@[x] == c;
                assert(keys@.contains(hex_key(d@[x])));
            } else {
                assert(before.contains(hex_key(c)));
                let p = choose|p: int| 0 <= p < before.len() && before[p] == hex_key(c);
                assert(keys@[p] == before[p]);
            }
        }
        t = t + 1;
    }
    assert(bound < 0x7fff_ffff);
    let ghost unsorted = keys@;
    sort_pairs(&mut keys);
    let ghost sorted = keys@;
    assert(sorted.len() == unsorted.len()) by {
        assert(sorted.to_multiset().len() == unsorted.to_multiset().len());
    }
    assert forall|p: int| 0 <= p < sorted.len() implies key_within(#[trigger] sorted[p], bound) by {
        assert(sorted.contains(sorted[p]));
        assert(sorted.to_multiset().count(sorted[p]) > 0);
        assert(unsorted.contains(sorted[p]));
    }
    let mut hexes: Vec<(i32, i32)> = Vec::new();
    let mut p: usize = 0;
    while p < keys.len()
        invariant
            keys@ == sorted,
            sorted_pairs(sorted),
            p <= sorted.len(),
            bound == max_coord() + rings,
            bound < 0x7fff_ffff,
            forall|x: int| 0 <= x < sorted.len() ==> key_within(#[trigger] sorted[x], bound),
            hexes@.len() <= p,
            strictly_sorted(hexes@),
            p > 0 ==> hexes@.len() > 0 && hexes@.last() == unkey(sorted[p - 1]),
            forall|i: int| 0 <= i < hexes@.len() ==> within(#[trigger] hexes@[i], bound),
            forall|x: int| 0 <= x < p ==> hexes@.contains(#[trigger] unkey(sorted[x])),
            forall|i: int| 0 <= i < hexes@.len() ==> exists|x: int| 0 <= x < p && #[trigger] hexes@[i] == unkey(sorted[x]),
        decreases sorted.len() - p,
    {
        let k = keys[p];
        let fresh = if p == 0 {
            true
        } else {
            let prev_key = keys[p - 1];
            prev_key.0 != k.0 || prev_key.1 != k.1
        };
        if fresh {
            let h = hex_of(k);
            let ghost prev = hexes@;
            proof {
                lemma_unkey(k, k, bound);
                if p > 0 {
                    assert(pair_le(sorted[p - 1], sorted[p as int]));
                    lemma_unkey(sorted[p - 1], k, bound);
                }
            }
            hexes.push(h);
            assert forall|i: int, j: int| 0 <= i < j < hexes@.len() implies hex_lt(
                #[trigger] hexes@[i],
                #[trigger] hexes@[j],
            ) by {
                if j == prev.len() {
                    if i < prev.len() - 1 {
                        assert(hex_lt(prev[i], prev.last()));
                    }
                } else {
                    assert(prev[i] == hexes@[i] && prev[j] == hexes@[j]);
                }
            }
            assert forall|x: int| 0 <= x < p + 1 implies hexes@.contains(#[trigger] unkey(sorted[x])) by {
                if x == p {
                    assert(hexes@[prev.len() as int] == h);
                } else {
                    let i = choose|i: int| 0 <= i < prev.len() && prev[i] == unkey(sorted[x]);
                    assert(hexes@[i] == prev[i]);
                }
            }
            assert forall|i: int| 0 <= i < hexes@.len() implies exists|x: int|
                0 <= x < p + 1 && #[trigger] hexes@[i] == unkey(sorted[x]) by {
                if i < prev.len() {
                    assert(hexes@[i] == prev[i]);
                } else {
                    assert(hexes@[i] == unkey(sorted[p as int]));
                }
            }
        } else {
            assert(unkey(sorted[p - 1]) == unkey(sorted[p as int]));
        }
        p = p + 1;
    }
    assert forall|t: int| 0 <= t < occupied@.len() implies hexes@.contains(#[trigger] occupied@[t]) by {
        let k = hex_key(occupied@[t]);
        assert(unsorted.contains(k));
        assert(unsorted.to_multiset().count(k) > 0);
        assert(sorted.contains(k));
        let x = choose|x: int| 0 <= x < sorted.len() && sorted[x] == k;
        lemma_hex_key(occupied@[t], occupied@[t]);
        assert(hexes@.contains(unkey(sorted[x])));
    }
    assert forall|c: (i32, i32)| #[trigger] hexes@.contains(c) <==> near_occupied(occupied@, rings as int, c) by {
        reveal(near_occupied);
        if hexes@.contains(c) {
            let i = choose|i: int| 0 <= i < hexes@.len() && hexes@[i] == c;
            let x = choose|x: int| 0 <= x < sorted.len() && #[trigger] hexes@[i] == unkey(sorted[x]);
            assert(sorted.contains(sorted[x]));
            assert(sorted.to_multiset().count(sorted[x]) > 0);
            assert(unsorted.contains(sorted[x]));
            let p = choose|p: int| 0 <= p < unsorted.len() && unsorted[p] == sorted[x];
            let u = choose|u: int| 0 <= u < occupied@.len() && hex_dist(unkey(unsorted[p]), occupied@[u]) <= rings;
        }
        if near_occupied(occupied@, rings as int, c) {
            let u = choose|u: int| 0 <= u < occupied@.len() && hex_dist(c, occupied@[u]) <= rings;
            assert(unsorted.contains(hex_key(c)));
            assert(unsorted.to_multiset().count(hex_key(c)) > 0);
            assert(sorted.contains(hex_key(c)));
            let x = choose|x: int| 0 <= x < sorted.len() && sorted[x] == hex_key(c);
            lemma_hex_key(c, c);
            assert(hexes@.contains(unkey(sorted[x])));
        }
    }
    hexes
}

/// The position of every hex in `hexes`, by its coordinates.
fn index_hexes(hexes: &Vec<(i32, i32)>) -> (index: FxHashMap<(i32, i32), usize>)
    requires
        strictly_sorted(hexes@),
    ensures
        forall|i: int|
            0 <= i < hexes@.len() ==> index@.contains_key(#[trigger] hexes@[i]) && index@[hexes@[i]]
                == i,
        forall|h: (i32, i32)| #[trigger] index@.contains_key(h) ==> hexes@.contains(h),
{
    let mut index: FxHashMap<(i32, i32), usize> = FxHashMap::default();
    let mut i: usize = 0;
    while i < hexes.len()
        invariant
            i <= hexes@.len(),
            strictly_sorted(hexes@),
            forall|j: int|
                0 <= j < i ==> index@.contains_key(#[trigger] hexes@[j]) && index@[hexes@[j]] == j,
            forall|h: (i32, i32)|
                #[trigger] index@.contains_key(h) ==> exists|j: int| 0 <= j < i && hexes@[j] == h,
        decreases hexes@.len() - i,
    {
        hex_map_insert(&mut index, hexes[i], i);
        assert forall|j: int| 0 <= j < i + 1 implies index@.contains_key(#[trigger] hexes@[j])
            && index@[hexes@[j]] == j by {
            if j < i {
                assert(hex_lt(hexes@[j], hexes@[i as int]));
            }
        }
        i = i + 1;
    }
    index
}

/// `index` sends each hex of `hexes` to its position, and holds no other hex.
pub open spec fn indexes(index: Map<(i32, i32), usize>, hexes: Seq<(i32, i32)>) -> bool {
    &&& forall|i: int|
        0 <= i < hexes.len() ==> index.contains_key(#[trigger] hexes[i]) && index[hexes[i]] == i
    &&& forall|h: (i32, i32)| #[trigger] index.contains_key(h) ==> hexes.contains(h)
}

proof fn lemma_lookup(index: Map<(i32, i32), usize>, hexes: Seq<(i32, i32)>, h: (i32, i32))
    requires
        indexes(index, hexes),
        index.contains_key(h),
    ensures
        index[h] < hexes.len(),
        hexes[index[h] as int] == h,
{
    let i = choose|i: int| 0 <= i < hexes.len() && hexes[i] == h;
    assert(index.contains_key(hexes[i]));
}

/// The hex one step from `h` in direction `d`.
fn step(h: (i32, i32), d: usize) -> (n: (i32, i32))
    requires
        d < 6,
        fits(h, 1),
    ensures
        n.0 == h.0 + dirs()[d as int].0,
        n.1 == h.1 + dirs()[d as int].1,
{
    if d == 0 {
        (h.0 + 1, h.1)
    } else if d == 1 {
        (h.0, h.1 + 1)
    } else if d == 2 {
        (h.0 - 1, h.1 + 1)
    } else if d == 3 {
        (h.0 - 1, h.1)
    } else if d == 4 {
        (h.0, h.1 - 1)
    } else {
        (h.0 + 1, h.1 - 1)
    }
}

/// The node count of cell `c` among the first `m` occupied hexes: that of the
/// last of them at `c`, none if none is.
pub open spec fn last_count(occupied: Seq<(i32, i32)>, counts: Seq<u32>, c: (i32, i32), m: int) -> u32
    decreases m,
{
    if m <= 0 {
        0
    } else if occupied[m - 1] == c {
        counts[m - 1]
    } else {
        last_count(occupied, counts, c, m - 1)
    }
}

/// The occupied hexes that count: those with a count beside them.
pub open spec fn counted(occupied: Seq<(i32, i32)>, counts: Seq<u32>) -> int {
    if occupied.len() < counts.len() {
        occupied.len() as int
    } else {
        counts.len() as int
    }
}

/// Every cell that counts a node is where some occupied hex lies.
spec fn each_count_placed(
    count: Seq<u32>,
    index: Map<(i32, i32), usize>,
    occupied: Seq<(i32, i32)>,
    counts: Seq<u32>,
) -> bool {
    forall|j: int|
        0 <= j < count.len() && count[j] > 0 ==> exists|u: int|
            0 <= u < occupied.len() && u < counts.len() && #[trigger] index[occupied[u]] == j
}

/// Each occupied hex's node count, at its position among `hexes`.
fn place_counts(
    occupied: &[(i32, i32)],
    counts: &[u32],
    hexes: &Vec<(i32, i32)>,
    index: &FxHashMap<(i32, i32), usize>,
) -> (count: Vec<u32>)
    requires
        indexes(index@, hexes@),
        strictly_sorted(hexes@),
        forall|t: int| 0 <= t < occupied@.len() ==> hexes@.contains(#[trigger] occupied@[t]),
    ensures
        count@.len() == hexes@.len(),
        each_count_placed(count@, index@, occupied@, counts@),
        occupied@.no_duplicates() ==> forall|u: int|
            0 <= u < occupied@.len() && u < counts@.len() ==> #[trigger] count@[index@[occupied@[u]] as int]
                == counts@[u],
        forall|j: int|
            0 <= j < count@.len() ==> #[trigger] count@[j] == last_count(
                occupied@,
                counts@,
                hexes@[j],
                counted(occupied@, counts@),
            ),
{
    let mut count: Vec<u32> = Vec::new();
    let mut i: usize = 0;
    while i < hexes.len()
        invariant
            i <= hexes@.len(),
            count@.len() == i,
            forall|j: int| 0 <= j < i ==> #[trigger] count@[j] == 0,
        decreases hexes@.len() - i,
    {
        count.push(0);
        i = i + 1;
    }
    let m = if occupied.len() < counts.len() {
        occupied.len()
    } else {
        counts.len()
    };
    let mut t: usize = 0;
    while t < m
        invariant
            t <= m,
            m <= occupied@.len(),
            m <= counts@.len(),
            count@.len() == hexes@.len(),
            indexes(index@, hexes@),
            forall|u: int| 0 <= u < occupied@.len() ==> hexes@.contains(#[trigger] occupied@[u]),
            forall|j: int|
                0 <= j < count@.len() && count@[j] > 0 ==> exists|u: int|
                    0 <= u < t && #[trigger] index@[occupied@[u]] == j,
            occupied@.no_duplicates() ==> forall|u: int|
                0 <= u < t ==> #[trigger] count@[index@[occupied@[u]] as int] == counts@[u],
            strictly_sorted(hexes@),
            m == counted(occupied@, counts@),
            forall|j: int|
                0 <= j < count@.len() ==> #[trigger] count@[j] == last_count(occupied@, counts@, hexes@[j], t as int),
        decreases m - t,
    {
        let h = occupied[t];
        assert(hexes@.contains(h));
        let ghost x = choose|x: int| 0 <= x < hexes@.len() && hexes@[x] == h;
        assert(index@.contains_key(hexes@[x]));
        match hex_map_get(index, h) {
            Some(j) => {
                proof {
                    lemma_lookup(index@, hexes@, h);
                }
                let ghost before = count@;
                count.set(j, counts[t]);
                assert forall|y: int| 0 <= y < count@.len() && count@[y] > 0 implies exists|u: int|
                    0 <= u < t + 1 && #[trigger] index@[occupied@[u]] == y by {
                    if y == j {
                        assert(index@[occupied@[t as int]] == y);
                    } else {
                        assert(before[y] > 0);
                        let u = choose|u: int| 0 <= u < t && #[trigger] index@[occupied@[u]] == y;
                        assert(0 <= u < t + 1 && index@[occupied@[u]] == y);
                    }
                }
                assert(occupied@.no_duplicates() ==> forall|u: int|
                    0 <= u < t + 1 ==> #[trigger] count@[index@[occupied@[u]] as int] == counts@[u])
                    by {
                    if occupied@.no_duplicates() {
                    assert forall|u: int|
                        0 <= u < t + 1 implies #[trigger] count@[index@[occupied@[u]] as int]
                        == counts@[u] by {
                        if u < t {
                            assert(occupied@[u] != occupied@[t as int]);
                            lemma_lookup(index@, hexes@, occupied@[u]);
                            assert(index@[occupied@[u]] != j);
                        }
                    }
                    }
                }
                assert forall|y: int| 0 <= y < count@.len() implies #[trigger] count@[y] == last_count(
                    occupied@,
                    counts@,
                    hexes@[y],
                    t + 1,
                ) by {
                    if y != j {
                        assert(before[y] == last_count(occupied@, counts@, hexes@[y], t as int));
                        if hexes@[y] == h {
                            if y < j {
                                assert(hex_lt(hexes@[y], hexes@[j as int]));
                            } else {
                                assert(hex_lt(hexes@[j as int], hexes@[y]));
                            }
                        }
                    }
                }
            },
            None => {
                assert(false);
            },
        }
        t = t + 1;
    }
    count
}

/// The nodes of the first `m` hexes that lie within `rings` steps of `h`.
pub open spec fn disc_total(hexes: Seq<(i32, i32)>, count: Seq<u32>, h: (i32, i32), rings: int, m: int) -> int
    decreases m,
{
    if m <= 0 {
        0
    } else {
        disc_total(hexes, count, h, rings, m - 1) + if hex_dist(hexes[m - 1], h) <= rings {
            count[m - 1] as int
        } else {
            0
        }
    }
}

proof fn lemma_disc_total_sum(
    hexes: Seq<(i32, i32)>,
    count: Seq<u32>,
    h: (i32, i32),
    rings: int,
    f: spec_fn(int) -> int,
    m: int,
)
    requires
        forall|k: int| 0 <= k < m ==> #[trigger] f(k) == if hex_dist(hexes[k], h) <= rings {
            count[k] as int
        } else {
            0
        },
    ensures
        disc_total(hexes, count, h, rings, m) == sum_to(f, m),
    decreases m,
{
    if m > 0 {
        lemma_disc_total_sum(hexes, count, h, rings, f, m - 1);
    }
}

/// A sum over `0..n` whose nonzero terms all sit at distinct places `pos(u)`,
/// for the `u` in `0..m` that have one, is the sum over `0..m` of those terms.
proof fn lemma_sum_reindex_some(
    f: spec_fn(int) -> int,
    pos: spec_fn(int) -> Option<int>,
    h: spec_fn(int) -> int,
    n: int,
    m: int,
)
    requires
        0 <= m,
        forall|u: int| 0 <= u < m && #[trigger] pos(u) is Some ==> 0 <= pos(u)->0 < n,
        forall|u: int, v: int|
            0 <= u < m && 0 <= v < m && u != v && #[trigger] pos(u) is Some && #[trigger] pos(v) is Some
                ==> pos(u)->0 != pos(v)->0,
        forall|j: int|
            0 <= j < n && #[trigger] f(j) != 0 ==> exists|u: int| 0 <= u < m && #[trigger] pos(u) == Some(j),
        forall|u: int|
            0 <= u < m ==> #[trigger] h(u) == match pos(u) {
                Some(j) => f(j),
                None => 0,
            },
    ensures
        sum_to(f, n) == sum_to(h, m),
    decreases m,
{
    if m == 0 {
        assert forall|j: int| 0 <= j < n implies #[trigger] f(j) == 0 by {
            if f(j) != 0 {
                assert(exists|u: int| 0 <= u < m && #[trigger] pos(u) == Some(j));
            }
        }
        lemma_sum_zero(f, n);
    } else {
        match pos(m - 1) {
            None => {
                assert forall|j: int| 0 <= j < n && #[trigger] f(j) != 0 implies exists|u: int|
                    0 <= u < m - 1 && #[trigger] pos(u) == Some(j) by {
                    let u = choose|u: int| 0 <= u < m && #[trigger] pos(u) == Some(j);
                    assert(u != m - 1);
                }
                lemma_sum_reindex_some(f, pos, h, n, m - 1);
            },
            Some(p) => {
                let g = |j: int| if j == p { 0 } else { f(j) };
                lemma_sum_point(f, p, n);
                assert forall|j: int| 0 <= j < n && #[trigger] g(j) != 0 implies exists|u: int|
                    0 <= u < m - 1 && #[trigger] pos(u) == Some(j) by {
                    let u = choose|u: int| 0 <= u < m && #[trigger] pos(u) == Some(j);
                    assert(u != m - 1);
                }
                assert forall|u: int| 0 <= u < m - 1 implies #[trigger] h(u) == match pos(u) {
                    Some(j) => g(j),
                    None => 0,
                } by {
                    if pos(u) is Some {
                        assert(pos(u)->0 != p);
                    }
                }
                lemma_sum_reindex_some(g, pos, h, n, m - 1);
            },
        }
    }
}

/// Nodes in each hex's disc: the density that drains into basins, kept as a
/// total since every disc has the same number of cells.
fn disc_totals(
    hexes: &Vec<(i32, i32)>,
    index: &FxHashMap<(i32, i32), usize>,
    count: &Vec<u32>,
    rings: usize,
) -> (total: Vec<u64>)
    requires
        rings <= max_rings(),
        hexes@.len() > 0 ==> disc_bound(rings as int) <= max_hexes(),
        indexes(index@, hexes@),
        count@.len() == hexes@.len(),
        forall|i: int| 0 <= i < hexes@.len() ==> within(#[trigger] hexes@[i], max_coord() + rings),
        strictly_sorted(hexes@),
    ensures
        total@.len() == hexes@.len(),
        forall|j: int|
            0 <= j < hexes@.len() ==> #[trigger] total@[j] == disc_total(
                hexes@,
                count@,
                hexes@[j],
                rings as int,
                hexes@.len() as int,
            ),
{
    let mut total: Vec<u64> = Vec::new();
    let mut i: usize = 0;
    while i < hexes.len()
        invariant
            i <= hexes@.len(),
            rings <= max_rings(),
            hexes@.len() > 0 ==> disc_bound(rings as int) <= max_hexes(),
            indexes(index@, hexes@),
            count@.len() == hexes@.len(),
            forall|x: int| 0 <= x < hexes@.len() ==> within(#[trigger] hexes@[x], max_coord() + rings),
            total@.len() == i,
            strictly_sorted(hexes@),
            forall|j: int|
                0 <= j < i ==> #[trigger] total@[j] == disc_total(
                    hexes@,
                    count@,
                    hexes@[j],
                    rings as int,
                    hexes@.len() as int,
                ),
        decreases hexes@.len() - i,
    {
        let (q, r) = hexes[i];
        assert(within(hexes@[i as int], max_coord() + rings));
        let around = disc(q, r, rings);
        let ghost g = |y: int| match slot(hexes@, around@[y]) {
            Some(k) => count@[k] as int,
            None => 0,
        };
        let mut sum: u64 = 0;
        let mut x: usize = 0;
        while x < around.len()
            invariant
                x <= around@.len(),
                around@.len() <= disc_bound(rings as int),
                disc_bound(rings as int) <= max_hexes(),
                rings <= max_rings(),
                indexes(index@, hexes@),
                strictly_sorted(hexes@),
                count@.len() == hexes@.len(),
                sum <= x * 0xffff_ffff,
                g == (|y: int| match slot(hexes@, around@[y]) {
                    Some(k) => count@[k] as int,
                    None => 0,
                }),
                sum == sum_to(g, x as int),
            decreases around@.len() - x,
        {
            proof {
                lemma_slot(index@, hexes@, around@[x as int]);
            }
            assert((x + 1) * 0xffff_ffff <= max_hexes() * 0xffff_ffff) by (nonlinear_arith)
                requires
                    x + 1 <= disc_bound(rings as int),
                    disc_bound(rings as int) <= max_hexes(),
            ;
            match hex_map_get(index, around[x]) {
                Some(j) => {
                    proof {
                        lemma_lookup(index@, hexes@, around@[x as int]);
                    }
                    sum = sum + count[j] as u64;
                },
                None => {},
            }
            x = x + 1;
        }
        proof {
            let n = hexes@.len() as int;
            let m = around@.len() as int;
            let c = (q, r);
            let f = |k: int| if hex_dist(hexes@[k], c) <= rings { count@[k] as int } else { 0 };
            let pos = |u: int| slot(hexes@, around@[u]);
            assert forall|u: int| 0 <= u < m && #[trigger] pos(u) is Some implies 0 <= pos(u)->0 < n by {
                lemma_slot(index@, hexes@, around@[u]);
            }
            assert forall|u: int, v: int|
                0 <= u < m && 0 <= v < m && u != v && #[trigger] pos(u) is Some && #[trigger] pos(v) is Some
                    implies pos(u)->0 != pos(v)->0 by {
                lemma_slot(index@, hexes@, around@[u]);
                lemma_slot(index@, hexes@, around@[v]);
                lemma_lookup(index@, hexes@, around@[u]);
                lemma_lookup(index@, hexes@, around@[v]);
                if u < v {
                    assert(hex_lt(around@[u], around@[v]));
                } else {
                    assert(hex_lt(around@[v], around@[u]));
                }
            }
            assert forall|j: int| 0 <= j < n && #[trigger] f(j) != 0 implies exists|u: int|
                0 <= u < m && #[trigger] pos(u) == Some(j) by {
                assert(hex_dist(hexes@[j], c) <= rings);
                assert(around@.contains(hexes@[j]));
                let u = choose|u: int| 0 <= u < m && around@[u] == hexes@[j];
                assert(index@.contains_key(hexes@[j]));
                lemma_slot(index@, hexes@, hexes@[j]);
                assert(pos(u) == Some(j));
            }
            assert forall|u: int| 0 <= u < m implies #[trigger] g(u) == match pos(u) {
                Some(j) => f(j),
                None => 0,
            } by {
                if pos(u) is Some {
                    lemma_slot(index@, hexes@, around@[u]);
                    lemma_lookup(index@, hexes@, around@[u]);
                    assert(hex_dist(around@[u], c) <= rings);
                }
            }
            lemma_sum_reindex_some(f, pos, g, n, m);
            lemma_disc_total_sum(hexes@, count@, c, rings as int, f, n);
        }
        total.push(sum);
        i = i + 1;
    }
    total
}

/// The cell one step from `h` in direction `d`.
pub open spec fn neighbour(h: (i32, i32), d: int) -> (i32, i32) {
    ((h.0 + dirs()[d].0) as i32, (h.1 + dirs()[d].1) as i32)
}

/// The position of cell `c` among `hexes`, if it is there.
pub open spec fn slot(hexes: Seq<(i32, i32)>, c: (i32, i32)) -> Option<int> {
    if hexes.contains(c) {
        Some(choose|k: int| 0 <= k < hexes.len() && hexes[k] == c)
    } else {
        None
    }
}

/// Hex `j` was drained before the one at place `p` of `order`.
pub open spec fn earlier(order: Seq<u32>, p: int, j: int) -> bool {
    exists|q: int| 0 <= q < p && order[q] == j
}

/// Direction `d` from the hex at place `p` of `order` leads to a hex already
/// drained.
pub open spec fn uphill(hexes: Seq<(i32, i32)>, order: Seq<u32>, p: int, d: int) -> bool {
    match slot(hexes, neighbour(hexes[order[p] as int], d)) {
        Some(j) => earlier(order, p, j),
        None => false,
    }
}

/// No direction from the hex at place `p` leads to a hex already drained: it
/// starts a basin.
pub open spec fn starts_basin(hexes: Seq<(i32, i32)>, order: Seq<u32>, p: int) -> bool {
    forall|d: int| 0 <= d < 6 ==> !#[trigger] uphill(hexes, order, p, d)
}

/// How many of the first `p` hexes of `order` start a basin.
pub open spec fn starters(hexes: Seq<(i32, i32)>, order: Seq<u32>, p: int) -> nat
    decreases p,
{
    if p <= 0 {
        0
    } else {
        starters(hexes, order, p - 1) + if starts_basin(hexes, order, p - 1) {
            1nat
        } else {
            0nat
        }
    }
}

/// Hex `j` is at least as steep a way up as hex `k`: denser, or as dense and
/// in a basin of no higher number.
pub open spec fn steeper(total: Seq<u64>, basin: Seq<u32>, j: int, k: int) -> bool {
    total[j] > total[k] || (total[j] == total[k] && basin[j] <= basin[k])
}

/// The hex at place `p` of `order` drains as the rule says: into the basin of
/// its steepest neighbour already drained, or, with none, into a new basin
/// numbered by how many were started before it.
#[verifier::opaque]
pub open spec fn drains(hexes: Seq<(i32, i32)>, order: Seq<u32>, total: Seq<u64>, basin: Seq<u32>, p: int) -> bool {
    let i = order[p] as int;
    if starts_basin(hexes, order, p) {
        basin[i] == starters(hexes, order, p)
    } else {
        exists|d: int|
            0 <= d < 6 && #[trigger] uphill(hexes, order, p, d) && {
                let j = slot(hexes, neighbour(hexes[i], d))->0;
                &&& basin[i] == basin[j]
                &&& forall|e: int|
                    0 <= e < 6 && #[trigger] uphill(hexes, order, p, e) ==> steeper(
                        total,
                        basin,
                        j,
                        slot(hexes, neighbour(hexes[i], e))->0,
                    )
            }
    }
}

proof fn lemma_slot(index: Map<(i32, i32), usize>, hexes: Seq<(i32, i32)>, c: (i32, i32))
    requires
        indexes(index, hexes),
        strictly_sorted(hexes),
    ensures
        index.contains_key(c) <==> slot(hexes, c) is Some,
        index.contains_key(c) ==> slot(hexes, c) == Some(index[c] as int) && index[c] < hexes.len(),
{
    if index.contains_key(c) {
        lemma_lookup(index, hexes, c);
        let k = choose|k: int| 0 <= k < hexes.len() && hexes[k] == c;
        if k != index[c] as int {
            if k < index[c] {
                assert(hex_lt(hexes[k], hexes[index[c] as int]));
            } else {
                assert(hex_lt(hexes[index[c] as int], hexes[k]));
            }
        }
    }
    if slot(hexes, c) is Some {
        let k = choose|k: int| 0 <= k < hexes.len() && hexes[k] == c;
        assert(index.contains_key(hexes[k]));
    }
}

/// The drain rule of a hex reads only the basins of hexes drained no later.
proof fn lemma_drains_frame(
    hexes: Seq<(i32, i32)>,
    order: Seq<u32>,
    total: Seq<u64>,
    basin: Seq<u32>,
    other: Seq<u32>,
    p: int,
)
    requires
        0 <= p < order.len(),
        basin.len() == other.len(),
        forall|q: int| 0 <= q <= p ==> #[trigger] basin[order[q] as int] == other[order[q] as int],
        drains(hexes, order, total, basin, p),
    ensures
        drains(hexes, order, total, other, p),
{
    reveal(drains);
    let i = order[p] as int;
    assert(basin[order[p] as int] == other[order[p] as int]);
    if !starts_basin(hexes, order, p) {
        let d = choose|d: int|
            0 <= d < 6 && #[trigger] uphill(hexes, order, p, d) && {
                let j = slot(hexes, neighbour(hexes[i], d))->0;
                &&& basin[i] == basin[j]
                &&& forall|e: int|
                    0 <= e < 6 && #[trigger] uphill(hexes, order, p, e) ==> steeper(
                        total,
                        basin,
                        j,
                        slot(hexes, neighbour(hexes[i], e))->0,
                    )
            };
        let j = slot(hexes, neighbour(hexes[i], d))->0;
        let qj = choose|q: int| 0 <= q < p && order[q] == j;
        assert(basin[order[qj] as int] == other[order[qj] as int]);
        assert forall|e: int| 0 <= e < 6 && #[trigger] uphill(hexes, order, p, e) implies steeper(
            total,
            other,
            j,
            slot(hexes, neighbour(hexes[i], e))->0,
        ) by {
            let k = slot(hexes, neighbour(hexes[i], e))->0;
            let qk = choose|q: int| 0 <= q < p && order[q] == k;
            assert(basin[order[qk] as int] == other[order[qk] as int]);
        }
    }
}

/// Drains each hex into its steepest uphill neighbour that has a basin, in
/// order of falling density; a hex with none starts a basin of its own.
/// `order` lists the hexes by falling density and `index` finds each hex by
/// its cell.
pub fn watershed(hexes: &Vec<(i32, i32)>, index: &FxHashMap<(i32, i32), usize>, total: &Vec<u64>, order: &Vec<u32>) -> (res: (
    Vec<u32>,
    u32,
))
    requires
        indexes(index@, hexes@),
        strictly_sorted(hexes@),
        hexes@.len() <= max_hexes(),
        total@.len() == hexes@.len(),
        order@.len() == hexes@.len(),
        order@.no_duplicates(),
        forall|x: u32| #[trigger] order@.contains(x) <==> x < hexes@.len(),
        forall|i: int| 0 <= i < hexes@.len() ==> within(#[trigger] hexes@[i], max_coord() + max_rings()),
    ensures
        res.0@.len() == hexes@.len(),
        res.1 == starters(hexes@, order@, hexes@.len() as int),
        res.1 <= hexes@.len(),
        forall|j: int| 0 <= j < res.0@.len() ==> (#[trigger] res.0@[j]) < res.1,
        forall|p: int| 0 <= p < hexes@.len() ==> #[trigger] drains(hexes@, order@, total@, res.0@, p),
{
    let n = hexes.len();
    let mut basin: Vec<u32> = Vec::new();
    let mut i: usize = 0;
    while i < n
        invariant
            i <= n,
            basin@.len() == i,
            forall|j: int| 0 <= j < i ==> basin@[j] == u32::MAX,
        decreases n - i,
    {
        basin.push(u32::MAX);
        i = i + 1;
    }
    let mut next: u32 = 0;
    let mut p: usize = 0;
    assert forall|q: int| 0 <= q < n implies (#[trigger] order@[q]) < n by {
        assert(order@.contains(order@[q]));
    }
    while p < n
        invariant
            n == hexes@.len(),
            n <= max_hexes(),
            p <= n,
            order@.len() == n,
            order@.no_duplicates(),
            indexes(index@, hexes@),
            strictly_sorted(hexes@),
            total@.len() == n,
            forall|x: u32| #[trigger] order@.contains(x) <==> x < n,
            forall|q: int| 0 <= q < n ==> (#[trigger] order@[q]) < n,
            forall|i: int| 0 <= i < n ==> within(#[trigger] hexes@[i], max_coord() + max_rings()),
            basin@.len() == n,
            next == starters(hexes@, order@, p as int),
            next <= p,
            forall|j: int| 0 <= j < n ==> (#[trigger] basin@[j] == u32::MAX || basin@[j] < next),
            forall|q: int| 0 <= q < p ==> #[trigger] basin@[order@[q] as int] != u32::MAX,
            forall|q: int| p <= q < n ==> #[trigger] basin@[order@[q] as int] == u32::MAX,
            forall|q: int| 0 <= q < p ==> #[trigger] drains(hexes@, order@, total@, basin@, q),
        decreases n - p,
    {
        assert(order@.contains(order@[p as int]));
        let i = order[p] as usize;
        let h = hexes[i];
        assert(within(hexes@[i as int], max_coord() + max_rings()));
        // a hex has a basin exactly when it was drained before this one
        assert forall|j: int| 0 <= j < n implies (#[trigger] basin@[j] != u32::MAX <==> earlier(
            order@,
            p as int,
            j,
        )) by {
            assert(order@.contains(j as u32));
            let q = choose|q: int| 0 <= q < n && order@[q] == j as u32;
            if basin@[j] != u32::MAX {
                assert(q < p);
            }
            if earlier(order@, p as int, j) {
                let q2 = choose|q2: int| 0 <= q2 < p && order@[q2] == j;
                assert(basin@[order@[q2] as int] != u32::MAX);
            }
        }
        let mut best: Option<usize> = None;
        let mut d: usize = 0;
        while d < 6
            invariant
                d <= 6,
                n == hexes@.len(),
                p < n,
                i == order@[p as int],
                h == hexes@[i as int],
                indexes(index@, hexes@),
                strictly_sorted(hexes@),
                total@.len() == n,
                basin@.len() == n,
                fits(h, 1),
                forall|j: int| 0 <= j < n ==> (#[trigger] basin@[j] != u32::MAX <==> earlier(
                    order@,
                    p as int,
                    j,
                )),
                best is None <==> forall|e: int| 0 <= e < d ==> !#[trigger] uphill(hexes@, order@, p as int, e),
                best matches Some(j) ==> j < n && exists|e: int|
                    0 <= e < d && #[trigger] uphill(hexes@, order@, p as int, e) && slot(
                        hexes@,
                        neighbour(h, e),
                    ) == Some(j as int),
                best matches Some(j) ==> forall|e: int|
                    0 <= e < d && #[trigger] uphill(hexes@, order@, p as int, e) ==> steeper(
                        total@,
                        basin@,
                        j as int,
                        slot(hexes@, neighbour(h, e))->0,
                    ),
            decreases 6 - d,
        {
            let nb = step(h, d);
            assert(nb == neighbour(h, d as int));
            proof {
                lemma_slot(index@, hexes@, nb);
            }
            let ghost old_best = best;
            match hex_map_get(index, nb) {
                Some(j) => {
                    if basin[j] != u32::MAX {
                        assert(uphill(hexes@, order@, p as int, d as int));
                        let better = match best {
                            None => true,
                            Some(b) => total[j] > total[b] || (total[j] == total[b] && basin[j]
                                <= basin[b]),
                        };
                        if better {
                            best = Some(j);
                        }
                        proof {
                            assert forall|e: int|
                                0 <= e < d + 1 && #[trigger] uphill(hexes@, order@, p as int, e) implies steeper(
                                total@,
                                basin@,
                                best->0 as int,
                                slot(hexes@, neighbour(h, e))->0,
                            ) by {
                                if e < d {
                                    let b = old_best->0 as int;
                                    let k = slot(hexes@, neighbour(h, e))->0;
                                    assert(steeper(total@, basin@, b, k));
                                }
                            }
                        }
                    } else {
                        assert(!uphill(hexes@, order@, p as int, d as int));
                    }
                },
                None => {
                    assert(!uphill(hexes@, order@, p as int, d as int));
                },
            }
            d = d + 1;
        }
        let ghost before = basin@;
        match best {
            Some(j) => {
                let b = basin[j];
                basin.set(i, b);
            },
            None => {
                basin.set(i, next);
                next = next + 1;
            },
        }
        proof {
            assert forall|q: int| 0 <= q < p + 1 implies #[trigger] basin@[order@[q] as int] != u32::MAX by {
                if q < p {
                    assert(order@[q] != order@[p as int]);
                    assert(basin@[order@[q] as int] == before[order@[q] as int]);
                }
            }
            assert forall|q: int| p + 1 <= q < n implies #[trigger] basin@[order@[q] as int] == u32::MAX by {
                assert(order@[q] != order@[p as int]);
                assert(basin@[order@[q] as int] == before[order@[q] as int]);
            }
            // the hexes drained before keep their basins
            assert forall|q: int| 0 <= q < p implies #[trigger] drains(hexes@, order@, total@, basin@, q) by {
                assert forall|r: int| 0 <= r <= q implies #[trigger] before[order@[r] as int]
                    == basin@[order@[r] as int] by {
                    assert(order@[r] != order@[p as int]);
                }
                lemma_drains_frame(hexes@, order@, total@, before, basin@, q);
            }
            // and this one drains as the rule says
            reveal(drains);
            match best {
                Some(j) => {
                    assert(!starts_basin(hexes@, order@, p as int));
                    let e0 = choose|e: int|
                        0 <= e < 6 && #[trigger] uphill(hexes@, order@, p as int, e) && slot(
                            hexes@,
                            neighbour(h, e),
                        ) == Some(j as int);
                    assert forall|e: int|
                        0 <= e < 6 && #[trigger] uphill(hexes@, order@, p as int, e) implies steeper(
                        total@,
                        basin@,
                        j as int,
                        slot(hexes@, neighbour(h, e))->0,
                    ) by {
                        let k = slot(hexes@, neighbour(h, e))->0;
                        assert(steeper(total@, before, j as int, k));
                        assert(earlier(order@, p as int, k));
                        assert(earlier(order@, p as int, j as int));
                        let qk = choose|q: int| 0 <= q < p && order@[q] == k;
                        let qj = choose|q: int| 0 <= q < p && order@[q] == j as int;
                        assert(order@[qk] != order@[p as int]);
                        assert(order@[qj] != order@[p as int]);
                    }
                    let qj = choose|q: int| 0 <= q < p && order@[q] == j as int;
                    assert(order@[qj] != order@[p as int]);
                    assert(uphill(hexes@, order@, p as int, e0));
                },
                None => {
                    assert(starts_basin(hexes@, order@, p as int));
                },
            }
            assert(starters(hexes@, order@, p + 1) == starters(hexes@, order@, p as int) + if starts_basin(
                hexes@,
                order@,
                p as int,
            ) {
                1nat
            } else {
                0nat
            });
        }
        p = p + 1;
    }
    assert forall|j: int| 0 <= j < n implies (#[trigger] basin@[j]) < next by {
        assert(order@.contains(j as u32));
        let q = choose|q: int| 0 <= q < n && order@[q] == j as u32;
        assert(basin@[order@[q] as int] != u32::MAX);
    }
    (basin, next)
}

/// Some hex drains into basin `b`.
pub open spec fn live(basin: Seq<u32>, b: int) -> bool {
    exists|j: int| 0 <= j < basin.len() && basin[j] == b
}

/// How many of the basins below `m` hold a hex.
pub open spec fn live_count(basin: Seq<u32>, m: int) -> nat
    decreases m,
{
    if m <= 0 {
        0
    } else {
        live_count(basin, m - 1) + if live(basin, m - 1) {
            1nat
        } else {
            0nat
        }
    }
}

proof fn lemma_live_count_bound(basin: Seq<u32>, m: int)
    requires
        0 <= m,
    ensures
        live_count(basin, m) <= m,
    decreases m,
{
    if m > 0 {
        lemma_live_count_bound(basin, m - 1);
    }
}

proof fn lemma_live_count_drop(old: Seq<u32>, new: Seq<u32>, b: int, m: int)
    requires
        forall|x: int| x != b ==> (live(new, x) <==> live(old, x)),
        live(old, b),
        !live(new, b),
        0 <= m,
    ensures
        live_count(new, m) + (if m > b {
            1nat
        } else {
            0nat
        }) == live_count(old, m),
    decreases m,
{
    if m > 0 {
        lemma_live_count_drop(old, new, b, m - 1);
    }
}

/// Folding basin `b` into basin `t` leaves one basin fewer.
proof fn lemma_live_merge(old: Seq<u32>, new: Seq<u32>, b: int, t: int, m: int)
    requires
        old.len() == new.len(),
        b != t,
        0 <= b < m,
        live(old, b),
        live(old, t),
        forall|j: int| 0 <= j < old.len() ==> #[trigger] new[j] == if old[j] == b {
            t as u32
        } else {
            old[j]
        },
    ensures
        live_count(new, m) + 1 == live_count(old, m),
        forall|x: int| x != b && live(old, x) ==> live(new, x),
{
    assert forall|x: int| x != b implies (live(new, x) <==> live(old, x)) by {
        if live(old, x) {
            let j = choose|j: int| 0 <= j < old.len() && old[j] == x;
            if x == t {
            } else {
                assert(new[j] == x);
            }
            if x == t {
                let k = choose|k: int| 0 <= k < old.len() && old[k] == t;
                assert(new[k] == t);
            }
        }
        if live(new, x) {
            let j = choose|j: int| 0 <= j < new.len() && new[j] == x;
            if old[j] == b {
                assert(x == t);
            } else {
                assert(old[j] == x);
            }
        }
    }
    assert(!live(new, b)) by {
        if live(new, b) {
            let j = choose|j: int| 0 <= j < new.len() && new[j] == b;
            assert(new[j] == if old[j] == b { t as u32 } else { old[j] });
        }
    }
    lemma_live_count_drop(old, new, b, m);
}

/// Nodes in basin `b` among the first `i` hexes.
pub open spec fn basin_nodes(basin: Seq<u32>, count: Seq<u32>, b: int, i: int) -> int
    decreases i,
{
    if i <= 0 {
        0
    } else {
        basin_nodes(basin, count, b, i - 1) + if basin[i - 1] == b {
            count[i - 1] as int
        } else {
            0
        }
    }
}

/// Cells in basin `b` among the first `i` hexes.
pub open spec fn basin_cells(basin: Seq<u32>, b: int, i: int) -> int
    decreases i,
{
    if i <= 0 {
        0
    } else {
        basin_cells(basin, b, i - 1) + if basin[i - 1] == b {
            1int
        } else {
            0
        }
    }
}

proof fn lemma_basin_cells(basin: Seq<u32>, b: int, i: int)
    requires
        0 <= i <= basin.len(),
    ensures
        basin_cells(basin, b, i) > 0 <==> exists|j: int| 0 <= j < i && basin[j] == b,
        basin_cells(basin, b, i) >= 0,
    decreases i,
{
    if i > 0 {
        lemma_basin_cells(basin, b, i - 1);
        if basin_cells(basin, b, i) > 0 && basin[i - 1] != b {
            let j = choose|j: int| 0 <= j < i - 1 && basin[j] == b;
            assert(0 <= j < i);
        }
        if exists|j: int| 0 <= j < i && basin[j] == b {
            let j = choose|j: int| 0 <= j < i && basin[j] == b;
            if j < i - 1 {
                assert(basin_cells(basin, b, i - 1) > 0);
            }
        }
    }
}

/// Nodes and cells in each basin.
fn basin_sizes(basin: &Vec<u32>, count: &Vec<u32>, next: u32) -> (res: (Vec<u64>, Vec<usize>))
    requires
        basin@.len() == count@.len(),
        basin@.len() <= max_hexes(),
        forall|j: int| 0 <= j < basin@.len() ==> (#[trigger] basin@[j]) < next,
    ensures
        res.0@.len() == next,
        res.1@.len() == next,
        forall|b: int|
            0 <= b < next ==> #[trigger] res.0@[b] == basin_nodes(basin@, count@, b, basin@.len() as int),
        forall|b: int| 0 <= b < next ==> (#[trigger] res.1@[b] > 0 <==> live(basin@, b)),
        forall|b: int|
            0 <= b < next && #[trigger] res.0@[b] > 0 ==> exists|j: int|
                0 <= j < basin@.len() && basin@[j] == b && #[trigger] count@[j] > 0,
        forall|j: int| 0 <= j < basin@.len() ==> #[trigger] res.0@[basin@[j] as int] >= count@[j],
{
    let mut nodes: Vec<u64> = Vec::new();
    let mut cells: Vec<usize> = Vec::new();
    let mut b: u32 = 0;
    while b < next
        invariant
            b <= next,
            nodes@.len() == b,
            cells@.len() == b,
            forall|x: int| 0 <= x < b ==> nodes@[x] == 0 && cells@[x] == 0,
        decreases next - b,
    {
        nodes.push(0);
        cells.push(0);
        b = b + 1;
    }
    let mut i: usize = 0;
    while i < basin.len()
        invariant
            i <= basin@.len(),
            basin@.len() == count@.len(),
            basin@.len() <= max_hexes(),
            forall|j: int| 0 <= j < basin@.len() ==> (#[trigger] basin@[j]) < next,
            nodes@.len() == next,
            cells@.len() == next,
            forall|x: int| 0 <= x < next ==> #[trigger] nodes@[x] <= i * 0xffff_ffff,
            forall|x: int| 0 <= x < next ==> #[trigger] cells@[x] <= i,
            forall|x: int| 0 <= x < next ==> #[trigger] nodes@[x] == basin_nodes(basin@, count@, x, i as int),
            forall|x: int| 0 <= x < next ==> #[trigger] cells@[x] == basin_cells(basin@, x, i as int),
            forall|x: int|
                0 <= x < next && #[trigger] nodes@[x] > 0 ==> exists|j: int|
                    0 <= j < i && basin@[j] == x && #[trigger] count@[j] > 0,
            forall|j: int| 0 <= j < i ==> #[trigger] nodes@[basin@[j] as int] >= count@[j],
        decreases basin@.len() - i,
    {
        let b = basin[i] as usize;
        assert(nodes@[b as int] + 0xffff_ffff <= (i + 1) * 0xffff_ffff);
        assert((i + 1) * 0xffff_ffff <= max_hexes() * 0xffff_ffff) by (nonlinear_arith)
            requires
                i + 1 <= max_hexes(),
        ;
        let ghost before = nodes@;
        let ghost cells_before = cells@;
        nodes.set(b, nodes[b] + count[i] as u64);
        cells.set(b, cells[b] + 1);
        assert forall|x: int| 0 <= x < next implies #[trigger] nodes@[x] == basin_nodes(
            basin@,
            count@,
            x,
            i + 1,
        ) by {
            assert(before[x] == basin_nodes(basin@, count@, x, i as int));
        }
        assert forall|x: int| 0 <= x < next implies #[trigger] cells@[x] == basin_cells(
            basin@,
            x,
            i + 1,
        ) by {
            assert(cells_before[x] == basin_cells(basin@, x, i as int));
        }
        assert forall|x: int|
            0 <= x < next && #[trigger] nodes@[x] > 0 implies exists|j: int|
                0 <= j < i + 1 && basin@[j] == x && #[trigger] count@[j] > 0 by {
            if x == b && before[x] == 0 {
                assert(basin@[i as int] == x && count@[i as int] > 0);
            } else {
                let j = choose|j: int| 0 <= j < i && basin@[j] == x && #[trigger] count@[j] > 0;
                assert(0 <= j < i + 1);
            }
        }
        assert forall|j: int| 0 <= j < i + 1 implies #[trigger] nodes@[basin@[j] as int] >= count@[j] by {
            if j < i {
                assert(before[basin@[j] as int] >= count@[j]);
            }
        }
        i = i + 1;
    }
    assert forall|x: int| 0 <= x < next implies (#[trigger] cells@[x] > 0 <==> live(basin@, x)) by {
        lemma_basin_cells(basin@, x, basin@.len() as int);
    }
    (nodes, cells)
}

/// How many of the first `d` directions from hex `i` lead to a hex of basin `t`.
pub open spec fn dir_hits(hexes: Seq<(i32, i32)>, basin: Seq<u32>, i: int, t: int, d: int) -> nat
    decreases d,
{
    if d <= 0 {
        0
    } else {
        dir_hits(hexes, basin, i, t, d - 1) + match slot(hexes, neighbour(hexes[i], d - 1)) {
            Some(j) => if basin[j] == t {
                1nat
            } else {
                0nat
            },
            None => 0nat,
        }
    }
}

/// How many steps lead from a hex of basin `b` among the first `m` to a hex of
/// basin `t`: the length of their shared border.
pub open spec fn border(hexes: Seq<(i32, i32)>, basin: Seq<u32>, b: int, t: int, m: int) -> nat
    decreases m,
{
    if m <= 0 {
        0
    } else {
        border(hexes, basin, b, t, m - 1) + if basin[m - 1] == b {
            dir_hits(hexes, basin, m - 1, t, 6)
        } else {
            0nat
        }
    }
}

/// Basin `t` shares the longest border with basin `b`, the lowest number among
/// those that tie.
pub open spec fn best_border(hexes: Seq<(i32, i32)>, basin: Seq<u32>, b: int, t: int) -> bool {
    let n = basin.len() as int;
    &&& t != b
    &&& border(hexes, basin, b, t, n) > 0
    &&& forall|u: int|
        u != b && #[trigger] border(hexes, basin, b, u, n) > 0 ==> border(hexes, basin, b, t, n) > border(
            hexes,
            basin,
            b,
            u,
            n,
        ) || (border(hexes, basin, b, t, n) == border(hexes, basin, b, u, n) && t <= u)
}

/// Hex `j` lies `g` steps from the nearest hex of basin `b`.
pub open spec fn gap_is(hexes: Seq<(i32, i32)>, basin: Seq<u32>, b: int, j: int, g: int) -> bool {
    &&& exists|i: int| 0 <= i < basin.len() && basin[i] == b && hex_dist(hexes[i], hexes[j]) == g
    &&& forall|i: int| 0 <= i < basin.len() && basin[i] == b ==> hex_dist(hexes[i], hexes[j]) >= g
}

/// Basin `t` holds a hex nearest to basin `b`, the lowest number among the
/// basins that do.
pub open spec fn nearest_basin(hexes: Seq<(i32, i32)>, basin: Seq<u32>, b: int, t: int) -> bool {
    exists|j: int, g: int|
        #![trigger gap_is(hexes, basin, b, j, g)]
        0 <= j < basin.len() && basin[j] != b && basin[j] == t && gap_is(hexes, basin, b, j, g) && forall|
            k: int,
            h: int,
        |
            0 <= k < basin.len() && basin[k] != b && #[trigger] gap_is(hexes, basin, b, k, h) ==> g < h || (g
                == h && t <= basin[k])
}

/// The basin that basin `b` is folded into: the one it shares the longest
/// border with, or, sharing none, the nearest.
pub open spec fn merge_target(hexes: Seq<(i32, i32)>, basin: Seq<u32>, b: int, t: int) -> bool {
    if exists|u: int| u != b && #[trigger] border(hexes, basin, b, u, basin.len() as int) > 0 {
        best_border(hexes, basin, b, t)
    } else {
        nearest_basin(hexes, basin, b, t)
    }
}

proof fn lemma_border_skip(hexes: Seq<(i32, i32)>, basin: Seq<u32>, b: int, t: int, a: int, c: int)
    requires
        0 <= a <= c,
        forall|i: int| a <= i < c ==> basin[i] != b,
    ensures
        border(hexes, basin, b, t, c) == border(hexes, basin, b, t, a),
    decreases c - a,
{
    if c > a {
        lemma_border_skip(hexes, basin, b, t, a, c - 1);
    }
}

/// The hexes of basin `b`, in order.
fn basin_hexes(basin: &Vec<u32>, b: u32) -> (mine: Vec<usize>)
    ensures
        mine@.len() <= basin@.len(),
        forall|x: int| 0 <= x < mine@.len() ==> (#[trigger] mine@[x]) < basin@.len() && basin@[mine@[x] as int] == b,
        forall|x: int, y: int| 0 <= x < y < mine@.len() ==> #[trigger] mine@[x] < #[trigger] mine@[y],
        forall|j: int| 0 <= j < basin@.len() && basin@[j] == b ==> mine@.contains(j as usize),
{
    let n = basin.len();
    let mut mine: Vec<usize> = Vec::new();
    let mut i: usize = 0;
    while i < n
        invariant
            i <= n == basin@.len(),
            mine@.len() <= i,
            forall|x: int| 0 <= x < mine@.len() ==> (#[trigger] mine@[x]) < i && basin@[mine@[x] as int] == b,
            forall|x: int, y: int| 0 <= x < y < mine@.len() ==> #[trigger] mine@[x] < #[trigger] mine@[y],
            forall|j: int| 0 <= j < i && basin@[j] == b ==> mine@.contains(j as usize),
        decreases n - i,
    {
        if basin[i] == b {
            let ghost before = mine@;
            mine.push(i);
            assert forall|j: int| 0 <= j < i + 1 && basin@[j] == b implies mine@.contains(j as usize) by {
                if j == i {
                    assert(mine@[before.len() as int] == j as usize);
                } else {
                    let x = choose|x: int| 0 <= x < before.len() && before[x] == j as usize;
                    assert(mine@[x] == before[x]);
                }
            }
        }
        i = i + 1;
    }
    mine
}

/// The border basin `b` shares with each other basin, by the other's number.
fn border_tally(
    basin: &Vec<u32>,
    hexes: &Vec<(i32, i32)>,
    index: &FxHashMap<(i32, i32), usize>,
    mine: &Vec<usize>,
    b: u32,
    next: u32,
) -> (tally: FxHashMap<u64, usize>)
    requires
        basin@.len() == hexes@.len(),
        hexes@.len() <= max_hexes(),
        indexes(index@, hexes@),
        strictly_sorted(hexes@),
        forall|i: int| 0 <= i < hexes@.len() ==> within(#[trigger] hexes@[i], max_coord() + max_rings()),
        forall|j: int| 0 <= j < basin@.len() ==> (#[trigger] basin@[j]) < next,
        forall|x: int| 0 <= x < mine@.len() ==> (#[trigger] mine@[x]) < basin@.len() && basin@[mine@[x] as int] == b,
        forall|x: int, y: int| 0 <= x < y < mine@.len() ==> #[trigger] mine@[x] < #[trigger] mine@[y],
        forall|j: int| 0 <= j < basin@.len() && basin@[j] == b ==> mine@.contains(j as usize),
        mine@.len() <= basin@.len(),
    ensures
        forall|k: u64| #[trigger] tally@.contains_key(k) ==> tally@[k] > 0,
        forall|k: u64|
            #[trigger] tally@.contains_key(k) ==> k < next && k != b && live(basin@, k as int) && tally@[k] == border(
                hexes@,
                basin@,
                b as int,
                k as int,
                basin@.len() as int,
            ),
        forall|t: int|
            0 <= t < next && t != b && #[trigger] border(hexes@, basin@, b as int, t, basin@.len() as int) > 0
                ==> tally@.contains_key(t as u64),
{
    let n = hexes.len();
    let mut tally: FxHashMap<u64, usize> = FxHashMap::default();
    let ghost lim = |x: int| if x < mine@.len() { mine@[x] as int } else { n as int };
    proof {
        assert forall|i: int| 0 <= i < lim(0) implies basin@[i] != b by {
            if basin@[i] == b {
                let y = choose|y: int| 0 <= y < mine@.len() && mine@[y] == i as usize;
                if mine@.len() > 0 && y > 0 {
                    assert(mine@[0] < mine@[y]);
                }
            }
        }
        assert forall|t: int| 0 <= t < next && t != b implies #[trigger] border(hexes@, basin@, b as int, t, lim(0)) == 0 by {
            lemma_border_skip(hexes@, basin@, b as int, t, 0, lim(0));
        }
    }
    let mut x: usize = 0;
    while x < mine.len()
        invariant
            x <= mine@.len(),
            n == basin@.len(),
            n == hexes@.len(),
            n <= max_hexes(),
            indexes(index@, hexes@),
            strictly_sorted(hexes@),
            forall|i: int| 0 <= i < n ==> within(#[trigger] hexes@[i], max_coord() + max_rings()),
            forall|j: int| 0 <= j < n ==> (#[trigger] basin@[j]) < next,
            forall|y: int| 0 <= y < mine@.len() ==> (#[trigger] mine@[y]) < n && basin@[mine@[y] as int] == b,
            forall|y: int, z: int| 0 <= y < z < mine@.len() ==> #[trigger] mine@[y] < #[trigger] mine@[z],
            forall|j: int| 0 <= j < n && basin@[j] == b ==> mine@.contains(j as usize),
            lim == (|y: int| if y < mine@.len() { mine@[y] as int } else { n as int }),
            mine@.len() <= n,
            forall|k: u64| #[trigger] tally@.contains_key(k) ==> tally@[k] > 0,
            forall|k: u64|
                #[trigger] tally@.contains_key(k) ==> k < next && k != b && live(basin@, k as int) && tally@[k]
                    == border(hexes@, basin@, b as int, k as int, lim(x as int)) && tally@[k] <= 6 * x,
            forall|t: int|
                0 <= t < next && t != b && #[trigger] border(hexes@, basin@, b as int, t, lim(x as int)) > 0
                    ==> tally@.contains_key(t as u64),
        decreases mine@.len() - x,
    {
        let cur = mine[x];
        let h = hexes[cur];
        assert(within(hexes@[cur as int], max_coord() + max_rings()));
        assert(lim(x as int) == cur as int);
        let mut d: usize = 0;
        while d < 6
            invariant
                d <= 6,
                x < mine@.len(),
                cur == mine@[x as int],
                cur < n,
                h == hexes@[cur as int],
                basin@[cur as int] == b,
                n == basin@.len(),
                n == hexes@.len(),
                n <= max_hexes(),
                indexes(index@, hexes@),
                strictly_sorted(hexes@),
                fits(h, 1),
                forall|j: int| 0 <= j < n ==> (#[trigger] basin@[j]) < next,
                lim == (|y: int| if y < mine@.len() { mine@[y] as int } else { n as int }),
                mine@.len() <= n,
                forall|k: u64| #[trigger] tally@.contains_key(k) ==> tally@[k] > 0,
                forall|k: u64|
                    #[trigger] tally@.contains_key(k) ==> k < next && k != b && live(basin@, k as int)
                        && tally@[k] == border(hexes@, basin@, b as int, k as int, cur as int) + dir_hits(
                        hexes@,
                        basin@,
                        cur as int,
                        k as int,
                        d as int,
                    ) && tally@[k] <= 6 * x + d,
                forall|t: int|
                    0 <= t < next && t != b && #[trigger] border(hexes@, basin@, b as int, t, cur as int)
                        + dir_hits(hexes@, basin@, cur as int, t, d as int) > 0 ==> tally@.contains_key(
                        t as u64,
                    ),
            decreases 6 - d,
        {
            let nb = step(h, d);
            assert(nb == neighbour(h, d as int));
            proof {
                lemma_slot(index@, hexes@, nb);
            }
            let ghost before = tally@;
            match hex_map_get(index, nb) {
                Some(j) => {
                    if basin[j] != b {
                        let key = basin[j] as u64;
                        let c = match tally_get(&tally, key) {
                            Some(c) => c,
                            None => 0,
                        };
                        assert(6 * x + d < 6 * max_hexes());
                        tally_insert(&mut tally, key, c + 1);
                        assert(live(basin@, key as int)) by {
                            assert(basin@[j as int] == key);
                        }
                        proof {
                            assert forall|t: int|
                                0 <= t < next && t != b && #[trigger] border(hexes@, basin@, b as int, t, cur as int)
                                    + dir_hits(hexes@, basin@, cur as int, t, d + 1) > 0 implies tally@.contains_key(
                                t as u64,
                            ) by {
                                if t != key {
                                    assert(before.contains_key(t as u64));
                                }
                            }
                        }
                    }
                },
                None => {},
            }
            d = d + 1;
        }
        proof {
            // past this hex, the border so far reaches the next hex of the basin
            assert forall|i: int| cur + 1 <= i < lim(x + 1) implies basin@[i] != b by {
                if basin@[i] == b {
                    let y = choose|y: int| 0 <= y < mine@.len() && mine@[y] == i as usize;
                    if y <= x {
                        if y < x {
                            assert(mine@[y] < mine@[x as int]);
                        }
                    } else if y > x + 1 {
                        assert(mine@[x + 1] < mine@[y]);
                    }
                }
            }
            assert forall|t: int| 0 <= t < next && t != b implies #[trigger] border(
                hexes@,
                basin@,
                b as int,
                t,
                lim(x + 1),
            ) == border(hexes@, basin@, b as int, t, cur as int) + dir_hits(hexes@, basin@, cur as int, t, 6) by {
                if x + 1 < mine@.len() {
                    assert(mine@[x as int] < mine@[x + 1]);
                }
                lemma_border_skip(hexes@, basin@, b as int, t, cur + 1, lim(x + 1));
            }
            assert forall|k: u64| #[trigger] tally@.contains_key(k) implies tally@[k] == border(
                hexes@,
                basin@,
                b as int,
                k as int,
                lim(x + 1),
            ) by {
                assert(border(hexes@, basin@, b as int, k as int, lim(x + 1)) == border(
                    hexes@,
                    basin@,
                    b as int,
                    k as int,
                    cur as int,
                ) + dir_hits(hexes@, basin@, cur as int, k as int, 6));
            }
            assert forall|t: int|
                0 <= t < next && t != b && #[trigger] border(hexes@, basin@, b as int, t, lim(x + 1)) > 0
                    implies tally@.contains_key(t as u64) by {
                assert(border(hexes@, basin@, b as int, t, lim(x + 1)) == border(
                    hexes@,
                    basin@,
                    b as int,
                    t,
                    cur as int,
                ) + dir_hits(hexes@, basin@, cur as int, t, 6));
            }
        }
        x = x + 1;
    }
    tally
}

/// Folds basin `b` into the basin it shares the longest border with, ties to
/// the lower number, or, with no border at all, into the nearest basin.
/// Answers whether some other basin was there to take it.
fn merge_one(
    basin: &mut Vec<u32>,
    hexes: &Vec<(i32, i32)>,
    index: &FxHashMap<(i32, i32), usize>,
    b: u32,
    next: u32,
) -> (merged: bool)
    requires
        old(basin)@.len() == hexes@.len(),
        hexes@.len() <= max_hexes(),
        indexes(index@, hexes@),
        strictly_sorted(hexes@),
        forall|i: int| 0 <= i < hexes@.len() ==> within(#[trigger] hexes@[i], max_coord() + max_rings()),
        forall|j: int| 0 <= j < old(basin)@.len() ==> (#[trigger] old(basin)@[j]) < next,
        b < next,
        live(old(basin)@, b as int),
    ensures
        final(basin)@.len() == old(basin)@.len(),
        forall|j: int| 0 <= j < final(basin)@.len() ==> (#[trigger] final(basin)@[j]) < next,
        merged ==> live_count(final(basin)@, next as int) + 1 == live_count(old(basin)@, next as int),
        merged <==> exists|j: int| 0 <= j < old(basin)@.len() && old(basin)@[j] != b,
        !merged ==> final(basin)@ == old(basin)@,
        !merged ==> forall|j: int| 0 <= j < old(basin)@.len() ==> #[trigger] old(basin)@[j] == b,
        merged ==> exists|t: int|
            #[trigger] merge_target(hexes@, old(basin)@, b as int, t) && t != b && forall|j: int|
                0 <= j < old(basin)@.len() ==> #[trigger] final(basin)@[j] == (if old(basin)@[j] == b {
                    t as u32
                } else {
                    old(basin)@[j]
                }),
        forall|x: int| x != b && live(old(basin)@, x) ==> live(final(basin)@, x),
{
    let n = hexes.len();
    let ghost start = basin@;
    let mine = basin_hexes(basin, b);
    assert(mine@.len() > 0) by {
        let j = choose|j: int| 0 <= j < basin@.len() && basin@[j] == b;
        assert(mine@.contains(j as usize));
    }
    let border_of = border_tally(basin, hexes, index, &mine, b, next);
    let entries = tally_entries(&border_of);
    let mut target: Option<u32> = None;
    let mut best_count: usize = 0;
    let mut e: usize = 0;
    while e < entries.len()
        invariant
            e <= entries@.len(),
            basin@ == start,
            forall|i: int|
                0 <= i < entries@.len() ==> border_of@.contains_key((#[trigger] entries@[i]).0)
                    && border_of@[entries@[i].0] == entries@[i].1,
            forall|k: u64|
                #[trigger] border_of@.contains_key(k) ==> k < next && k != b && live(basin@, k as int)
                    && border_of@[k] == border(hexes@, basin@, b as int, k as int, n as int),
            target is None <==> e == 0,
            target matches Some(t) ==> t < next && t != b && live(basin@, t as int) && border_of@.contains_key(
                t as u64,
            ) && border_of@[t as u64] == best_count,
            target matches Some(t) ==> forall|y: int|
                0 <= y < e ==> best_count > (#[trigger] entries@[y]).1 || (best_count == entries@[y].1
                    && t <= entries@[y].0),
        decreases entries@.len() - e,
    {
        let (k, c) = entries[e];
        assert(border_of@.contains_key(entries@[e as int].0));
        let take = match target {
            None => true,
            Some(t) => c > best_count || (c == best_count && k <= t as u64),
        };
        if take {
            target = Some(k as u32);
            best_count = c;
        }
        e = e + 1;
    }
    let ghost by_border = target;
    proof {
        let has = exists|u: int| u != b && #[trigger] border(hexes@, basin@, b as int, u, n as int) > 0;
        if has {
            let u = choose|u: int| u != b && #[trigger] border(hexes@, basin@, b as int, u, n as int) > 0;
            // a basin with a border is a live basin below next
            assert(0 <= u < next) by {
                lemma_border_names(hexes@, basin@, b as int, u, n as int);
            }
            assert(border_of@.contains_key(u as u64));
            let i = choose|i: int| 0 <= i < entries@.len() && entries@[i].0 == u as u64;
            assert(entries@.len() > 0);
        }
        if let Some(t) = target {
            assert forall|u: int|
                u != b && #[trigger] border(hexes@, basin@, b as int, u, n as int) > 0 implies border(
                hexes@,
                basin@,
                b as int,
                t as int,
                n as int,
            ) > border(hexes@, basin@, b as int, u, n as int) || (border(hexes@, basin@, b as int, t as int, n as int)
                == border(hexes@, basin@, b as int, u, n as int) && t <= u) by {
                lemma_border_names(hexes@, basin@, b as int, u, n as int);
                assert(border_of@.contains_key(u as u64));
                let i = choose|i: int| 0 <= i < entries@.len() && entries@[i].0 == u as u64;
            }
            assert(best_border(hexes@, basin@, b as int, t as int));
        } else {
            if entries@.len() > 0 {
                assert(false);
            }
            assert forall|u: int| u != b implies #[trigger] border(hexes@, basin@, b as int, u, n as int) == 0 by {
                if border(hexes@, basin@, b as int, u, n as int) > 0 {
                    lemma_border_names(hexes@, basin@, b as int, u, n as int);
                    assert(border_of@.contains_key(u as u64));
                }
            }
        }
    }
    if target.is_none() {
        let mut best: Option<(i32, u32)> = None;
        let ghost mut best_j: int = 0;
        let mut j: usize = 0;
        while j < n
            invariant
                j <= n,
                n == basin@.len(),
                n == hexes@.len(),
                basin@ == start,
                mine@.len() > 0,
                forall|y: int| 0 <= y < mine@.len() ==> (#[trigger] mine@[y]) < n && basin@[mine@[y] as int] == b,
                forall|i: int| 0 <= i < n && basin@[i] == b ==> mine@.contains(i as usize),
                forall|i: int| 0 <= i < hexes@.len() ==> within(#[trigger] hexes@[i], max_coord() + max_rings()),
                forall|i: int| 0 <= i < basin@.len() ==> (#[trigger] basin@[i]) < next,
                best is None ==> forall|i: int| 0 <= i < j ==> #[trigger] basin@[i] == b,
                best matches Some(p) ==> p.1 < next && p.1 != b && live(basin@, p.1 as int) && 0 <= best_j < j
                    && basin@[best_j] != b && basin@[best_j] == p.1 && gap_is(hexes@, basin@, b as int, best_j, p.0 as int)
                    && forall|k: int, h: int|
                    0 <= k < j && basin@[k] != b && #[trigger] gap_is(hexes@, basin@, b as int, k, h) ==> p.0 < h || (
                    p.0 == h && p.1 <= basin@[k]),
            decreases n - j,
        {
            if basin[j] != b {
                assert(within(hexes@[j as int], max_coord() + max_rings()));
                assert(within(hexes@[mine@[0] as int], max_coord() + max_rings()));
                let mut gap = hex_distance(hexes[mine[0]], hexes[j]);
                let ghost mut at: int = mine@[0] as int;
                let mut y: usize = 1;
                while y < mine.len()
                    invariant
                        1 <= y <= mine@.len(),
                        j < n,
                        n == hexes@.len(),
                        n == basin@.len(),
                        forall|z: int| 0 <= z < mine@.len() ==> (#[trigger] mine@[z]) < n && basin@[mine@[z] as int] == b,
                        forall|i: int|
                            0 <= i < hexes@.len() ==> within(#[trigger] hexes@[i], max_coord() + max_rings()),
                        0 <= at < n,
                        basin@[at] == b,
                        hex_dist(hexes@[at], hexes@[j as int]) == gap,
                        forall|z: int| 0 <= z < y ==> hex_dist(hexes@[#[trigger] mine@[z] as int], hexes@[j as int]) >= gap,
                    decreases mine@.len() - y,
                {
                    assert(within(hexes@[mine@[y as int] as int], max_coord() + max_rings()));
                    assert(within(hexes@[j as int], max_coord() + max_rings()));
                    let g = hex_distance(hexes[mine[y]], hexes[j]);
                    if g < gap {
                        gap = g;
                        proof {
                            at = mine@[y as int] as int;
                        }
                    }
                    y = y + 1;
                }
                proof {
                    assert forall|i: int| 0 <= i < n && basin@[i] == b implies hex_dist(hexes@[i], hexes@[j as int]) >= gap by {
                        let z = choose|z: int| 0 <= z < mine@.len() && mine@[z] == i as usize;
                        assert(hex_dist(hexes@[mine@[z] as int], hexes@[j as int]) >= gap);
                    }
                    assert(gap_is(hexes@, basin@, b as int, j as int, gap as int));
                }
                let nearer = match best {
                    None => true,
                    Some(p) => gap < p.0 || (gap == p.0 && basin[j] < p.1),
                };
                if nearer {
                    best = Some((gap, basin[j]));
                    proof {
                        best_j = j as int;
                    }
                    assert(live(basin@, basin@[j as int] as int));
                }
                proof {
                    lemma_gap_unique(hexes@, basin@, b as int, j as int, gap as int);
                }
            }
            j = j + 1;
        }
        target = match best {
            Some(p) => Some(p.1),
            None => None,
        };
        proof {
            if let Some(p) = best {
                assert(nearest_basin(hexes@, basin@, b as int, p.1 as int)) by {
                    assert(gap_is(hexes@, basin@, b as int, best_j, p.0 as int));
                }
            }
        }
    }
    match target {
        Some(t) => {
            let ghost old_basin = basin@;
            let mut i: usize = 0;
            while i < n
                invariant
                    i <= n,
                    n == basin@.len(),
                    old_basin.len() == n,
                    t < next,
                    forall|j: int| 0 <= j < i ==> #[trigger] basin@[j] == if old_basin[j] == b {
                        t
                    } else {
                        old_basin[j]
                    },
                    forall|j: int| i <= j < n ==> #[trigger] basin@[j] == old_basin[j],
                decreases n - i,
            {
                if basin[i] == b {
                    basin.set(i, t);
                }
                i = i + 1;
            }
            proof {
                lemma_live_merge(old_basin, basin@, b as int, t as int, next as int);
                assert(merge_target(hexes@, old_basin, b as int, t as int));
                let w = choose|w: int| 0 <= w < old_basin.len() && old_basin[w] == t;
                assert(old_basin[w] != b);
            }
            assert forall|j: int| 0 <= j < basin@.len() implies (#[trigger] basin@[j]) < next by {
                assert(old_basin[j] < next);
            }
            true
        },
        None => {
            assert forall|j: int| 0 <= j < basin@.len() implies #[trigger] basin@[j] == b by {
            }
            false
        },
    }
}

/// A border is only ever shared with a live basin below `next`.
proof fn lemma_border_names(hexes: Seq<(i32, i32)>, basin: Seq<u32>, b: int, t: int, m: int)
    requires
        basin.len() == hexes.len(),
        0 <= m <= basin.len(),
        border(hexes, basin, b, t, m) > 0,
    ensures
        live(basin, t),
    decreases m,
{
    if border(hexes, basin, b, t, m - 1) > 0 {
        lemma_border_names(hexes, basin, b, t, m - 1);
    } else {
        lemma_dir_hits_names(hexes, basin, m - 1, t, 6);
    }
}

proof fn lemma_dir_hits_names(hexes: Seq<(i32, i32)>, basin: Seq<u32>, i: int, t: int, d: int)
    requires
        basin.len() == hexes.len(),
        dir_hits(hexes, basin, i, t, d) > 0,
    ensures
        live(basin, t),
    decreases d,
{
    if dir_hits(hexes, basin, i, t, d - 1) > 0 {
        lemma_dir_hits_names(hexes, basin, i, t, d - 1);
    } else {
        let c = neighbour(hexes[i], d - 1);
        assert(slot(hexes, c) is Some);
        assert(hexes.contains(c));
        let j = slot(hexes, c)->0;
        assert(0 <= j < hexes.len() && hexes[j] == c);
        assert(basin[j] == t);
    }
}

proof fn lemma_gap_unique(hexes: Seq<(i32, i32)>, basin: Seq<u32>, b: int, j: int, g: int)
    requires
        gap_is(hexes, basin, b, j, g),
    ensures
        forall|h: int| #[trigger] gap_is(hexes, basin, b, j, h) ==> h == g,
{
    assert forall|h: int| #[trigger] gap_is(hexes, basin, b, j, h) implies h == g by {
        let i1 = choose|i: int| 0 <= i < basin.len() && basin[i] == b && hex_dist(hexes[i], hexes[j]) == g;
        let i2 = choose|i: int| 0 <= i < basin.len() && basin[i] == b && hex_dist(hexes[i], hexes[j]) == h;
    }
}

/// Basin `b` folded into basin `t`.
pub open spec fn relabel(basin: Seq<u32>, b: int, t: int) -> Seq<u32> {
    Seq::new(basin.len(), |j: int| if basin[j] == b { t as u32 } else { basin[j] })
}

/// What folding basin `b` does: its hexes go to its merge target, when some
/// other basin is there to take them.
pub open spec fn merge_step(hexes: Seq<(i32, i32)>, basin: Seq<u32>, b: int) -> Seq<u32> {
    if exists|j: int| 0 <= j < basin.len() && basin[j] != b {
        relabel(basin, b, choose|t: int| merge_target(hexes, basin, b, t))
    } else {
        basin
    }
}

/// Folds the basins of `list` from place `k` on, one after the other.
pub open spec fn pass_from(hexes: Seq<(i32, i32)>, basin: Seq<u32>, list: Seq<u32>, k: int) -> Seq<u32>
    decreases list.len() - k,
{
    if k < 0 || k >= list.len() {
        basin
    } else {
        pass_from(hexes, merge_step(hexes, basin, list[k] as int), list, k + 1)
    }
}

/// Basin `x` comes before basin `y` among the small ones: fewer nodes, or as
/// many and a lower number.
pub open spec fn small_before(basin: Seq<u32>, count: Seq<u32>, x: int, y: int) -> bool {
    let n = basin.len() as int;
    basin_nodes(basin, count, x, n) < basin_nodes(basin, count, y, n) || (basin_nodes(basin, count, x, n)
        == basin_nodes(basin, count, y, n) && x < y)
}

/// `s` lists the small basins (holding a hex but fewer than `floor` nodes),
/// each once, smallest first.
pub open spec fn is_small_order(s: Seq<u32>, basin: Seq<u32>, count: Seq<u32>, next: int, floor: int) -> bool {
    &&& forall|x: u32|
        #[trigger] s.contains(x) <==> (x < next && live(basin, x as int) && basin_nodes(
            basin,
            count,
            x as int,
            basin.len() as int,
        ) < floor)
    &&& forall|a: int, c: int|
        0 <= a < c < s.len() ==> small_before(basin, count, #[trigger] s[a] as int, #[trigger] s[c] as int)
}

/// The small basins, smallest first.
pub open spec fn small_order(basin: Seq<u32>, count: Seq<u32>, next: int, floor: int) -> Seq<u32> {
    choose|s: Seq<u32>| is_small_order(s, basin, count, next, floor)
}

/// Passes over the small basins, smallest first, for as long as a pass folds
/// one, at most `fuel` of them.
pub open spec fn merge_passes(
    hexes: Seq<(i32, i32)>,
    basin: Seq<u32>,
    count: Seq<u32>,
    next: int,
    floor: int,
    fuel: nat,
) -> Seq<u32>
    decreases fuel,
{
    if fuel == 0 {
        basin
    } else {
        let list = small_order(basin, count, next, floor);
        if list.len() > 0 && exists|j: int| 0 <= j < basin.len() && basin[j] != list[0] {
            merge_passes(hexes, pass_from(hexes, basin, list, 0), count, next, floor, (fuel - 1) as nat)
        } else {
            basin
        }
    }
}

proof fn lemma_small_order_unique(s1: Seq<u32>, s2: Seq<u32>, basin: Seq<u32>, count: Seq<u32>, next: int, floor: int)
    requires
        is_small_order(s1, basin, count, next, floor),
        forall|x: u32| #[trigger] s2.contains(x) <==> s1.contains(x),
        forall|a: int, c: int|
            0 <= a < c < s2.len() ==> small_before(basin, count, #[trigger] s2[a] as int, #[trigger] s2[c] as int),
    ensures
        s1 == s2,
    decreases s1.len(),
{
    if s1.len() == 0 {
        if s2.len() > 0 {
            assert(s2.contains(s2[0]));
        }
        assert(s1 =~= s2);
    } else {
        assert(s1.contains(s1[0]));
        assert(s2.contains(s1[0]));
        assert(s2.len() > 0);
        let m1 = s1[0];
        let m2 = s2[0];
        assert(s2.contains(m1));
        assert(s2.contains(m2));
        let k = choose|k: int| 0 <= k < s2.len() && s2[k] == m1;
        let k2 = choose|k: int| 0 <= k < s1.len() && s1[k] == m2;
        if k > 0 && k2 > 0 {
            assert(small_before(basin, count, s2[0] as int, s2[k] as int));
            assert(small_before(basin, count, s1[0] as int, s1[k2] as int));
        }
        assert(m1 == m2);
        let t1 = s1.drop_first();
        let t2 = s2.drop_first();
        assert forall|x: u32| #[trigger] t2.contains(x) <==> t1.contains(x) by {
            if t1.contains(x) {
                let a = choose|a: int| 0 <= a < t1.len() && t1[a] == x;
                assert(small_before(basin, count, s1[0] as int, s1[a + 1] as int));
                assert(s1[a + 1] == x);
                assert(s1.contains(x));
                assert(s2.contains(x));
                let c = choose|c: int| 0 <= c < s2.len() && s2[c] == x;
                assert(c != 0);
                assert(t2[c - 1] == x);
            }
            if t2.contains(x) {
                let a = choose|a: int| 0 <= a < t2.len() && t2[a] == x;
                assert(small_before(basin, count, s2[0] as int, s2[a + 1] as int));
                assert(s2[a + 1] == x);
                assert(s2.contains(x));
                assert(s1.contains(x));
                let c = choose|c: int| 0 <= c < s1.len() && s1[c] == x;
                assert(c != 0);
                assert(t1[c - 1] == x);
            }
        }
        assert forall|a: int, c: int| 0 <= a < c < t1.len() implies small_before(
            basin,
            count,
            #[trigger] t1[a] as int,
            #[trigger] t1[c] as int,
        ) by {
            assert(t1[a] == s1[a + 1] && t1[c] == s1[c + 1]);
        }
        assert forall|a: int, c: int| 0 <= a < c < t2.len() implies small_before(
            basin,
            count,
            #[trigger] t2[a] as int,
            #[trigger] t2[c] as int,
        ) by {
            assert(t2[a] == s2[a + 1] && t2[c] == s2[c + 1]);
        }
        assert forall|x: u32|
            #[trigger] t1.contains(x) <==> (x < next && live(basin, x as int) && basin_nodes(
                basin,
                count,
                x as int,
                basin.len() as int,
            ) < floor && x != m1) by {
            if t1.contains(x) {
                let a = choose|a: int| 0 <= a < t1.len() && t1[a] == x;
                assert(s1.contains(x));
                assert(small_before(basin, count, s1[0] as int, s1[a + 1] as int));
            }
            if x < next && live(basin, x as int) && basin_nodes(basin, count, x as int, basin.len() as int) < floor
                && x != m1 {
                assert(s1.contains(x));
                let c = choose|c: int| 0 <= c < s1.len() && s1[c] == x;
                assert(t1[c - 1] == x);
            }
        }
        lemma_small_order_rest(t1, t2, basin, count, next, floor, m1);
        assert(s1 =~= s2) by {
            assert forall|i: int| 0 <= i < s1.len() implies s1[i] == s2[i] by {
                if i > 0 {
                    assert(s1[i] == t1[i - 1] && s2[i] == t2[i - 1]);
                }
            }
        }
    }
}

/// The tail of a sorted list of distinct basins is sorted the same way; two
/// such tails over the same basins agree.
proof fn lemma_small_order_rest(
    t1: Seq<u32>,
    t2: Seq<u32>,
    basin: Seq<u32>,
    count: Seq<u32>,
    next: int,
    floor: int,
    gone: u32,
)
    requires
        forall|x: u32| #[trigger] t2.contains(x) <==> t1.contains(x),
        forall|a: int, c: int|
            0 <= a < c < t1.len() ==> small_before(basin, count, #[trigger] t1[a] as int, #[trigger] t1[c] as int),
        forall|a: int, c: int|
            0 <= a < c < t2.len() ==> small_before(basin, count, #[trigger] t2[a] as int, #[trigger] t2[c] as int),
    ensures
        t1 == t2,
    decreases t1.len(),
{
    if t1.len() == 0 {
        if t2.len() > 0 {
            assert(t2.contains(t2[0]));
        }
        assert(t1 =~= t2);
    } else {
        assert(t1.contains(t1[0]));
        assert(t2.contains(t1[0]));
        let m1 = t1[0];
        let m2 = t2[0];
        assert(t2.contains(m1));
        assert(t2.contains(m2));
        let k = choose|k: int| 0 <= k < t2.len() && t2[k] == m1;
        let k2 = choose|k: int| 0 <= k < t1.len() && t1[k] == m2;
        if k > 0 && k2 > 0 {
            assert(small_before(basin, count, t2[0] as int, t2[k] as int));
            assert(small_before(basin, count, t1[0] as int, t1[k2] as int));
        }
        assert(m1 == m2);
        let r1 = t1.drop_first();
        let r2 = t2.drop_first();
        assert forall|x: u32| #[trigger] r2.contains(x) <==> r1.contains(x) by {
            if r1.contains(x) {
                let a = choose|a: int| 0 <= a < r1.len() && r1[a] == x;
                assert(small_before(basin, count, t1[0] as int, t1[a + 1] as int));
                assert(t1[a + 1] == x);
                assert(t1.contains(x));
                assert(t2.contains(x));
                let c = choose|c: int| 0 <= c < t2.len() && t2[c] == x;
                assert(c != 0);
                assert(r2[c - 1] == x);
            }
            if r2.contains(x) {
                let a = choose|a: int| 0 <= a < r2.len() && r2[a] == x;
                assert(small_before(basin, count, t2[0] as int, t2[a + 1] as int));
                assert(t2[a + 1] == x);
                assert(t2.contains(x));
                assert(t1.contains(x));
                let c = choose|c: int| 0 <= c < t1.len() && t1[c] == x;
                assert(c != 0);
                assert(r1[c - 1] == x);
            }
        }
        assert forall|a: int, c: int| 0 <= a < c < r1.len() implies small_before(
            basin,
            count,
            #[trigger] r1[a] as int,
            #[trigger] r1[c] as int,
        ) by {
            assert(r1[a] == t1[a + 1] && r1[c] == t1[c + 1]);
        }
        assert forall|a: int, c: int| 0 <= a < c < r2.len() implies small_before(
            basin,
            count,
            #[trigger] r2[a] as int,
            #[trigger] r2[c] as int,
        ) by {
            assert(r2[a] == t2[a + 1] && r2[c] == t2[c + 1]);
        }
        lemma_small_order_rest(r1, r2, basin, count, next, floor, gone);
        assert(t1 =~= t2) by {
            assert forall|i: int| 0 <= i < t1.len() implies t1[i] == t2[i] by {
                if i > 0 {
                    assert(t1[i] == r1[i - 1] && t2[i] == r2[i - 1]);
                }
            }
        }
    }
}

proof fn lemma_merge_target_unique(hexes: Seq<(i32, i32)>, basin: Seq<u32>, b: int, t1: int, t2: int)
    requires
        merge_target(hexes, basin, b, t1),
        merge_target(hexes, basin, b, t2),
    ensures
        t1 == t2,
{
    let n = basin.len() as int;
    if exists|u: int| u != b && #[trigger] border(hexes, basin, b, u, n) > 0 {
        assert(border(hexes, basin, b, t2, n) > 0);
        assert(border(hexes, basin, b, t1, n) > 0);
    } else {
        let (j1, g1) = choose|j: int, g: int|
            #![trigger gap_is(hexes, basin, b, j, g)]
            0 <= j < basin.len() && basin[j] != b && basin[j] == t1 && gap_is(hexes, basin, b, j, g) && forall|
                k: int,
                h: int,
            |
                0 <= k < basin.len() && basin[k] != b && #[trigger] gap_is(hexes, basin, b, k, h) ==> g < h || (g
                    == h && t1 <= basin[k]);
        let (j2, g2) = choose|j: int, g: int|
            #![trigger gap_is(hexes, basin, b, j, g)]
            0 <= j < basin.len() && basin[j] != b && basin[j] == t2 && gap_is(hexes, basin, b, j, g) && forall|
                k: int,
                h: int,
            |
                0 <= k < basin.len() && basin[k] != b && #[trigger] gap_is(hexes, basin, b, k, h) ==> g < h || (g
                    == h && t2 <= basin[k]);
        assert(gap_is(hexes, basin, b, j2, g2));
        assert(gap_is(hexes, basin, b, j1, g1));
    }
}

/// The least node count a basin keeps: `min_nodes`, and at least one.
pub open spec fn node_floor(min_nodes: int) -> int {
    if min_nodes > 1 {
        min_nodes
    } else {
        1
    }
}

/// Every basin that holds a hex holds at least `floor` nodes, unless it is the
/// only basin left.
spec fn settled(basin: Seq<u32>, count: Seq<u32>, next: int, floor: int) -> bool {
    forall|b: int|
        0 <= b < next && #[trigger] live(basin, b) ==> basin_nodes(basin, count, b, basin.len() as int)
            >= floor || forall|j: int| 0 <= j < basin.len() ==> basin[j] == b
}

/// Folds every basin with fewer than `min_nodes` nodes (and at least one) into
/// a neighbour, smallest first, until no pass folds any.
fn merge_small(
    basin: &mut Vec<u32>,
    hexes: &Vec<(i32, i32)>,
    index: &FxHashMap<(i32, i32), usize>,
    count: &Vec<u32>,
    next: u32,
    min_nodes: usize,
)
    requires
        old(basin)@.len() == hexes@.len(),
        count@.len() == hexes@.len(),
        hexes@.len() <= max_hexes(),
        next <= hexes@.len(),
        indexes(index@, hexes@),
        strictly_sorted(hexes@),
        forall|i: int| 0 <= i < hexes@.len() ==> within(#[trigger] hexes@[i], max_coord() + max_rings()),
        forall|j: int| 0 <= j < old(basin)@.len() ==> (#[trigger] old(basin)@[j]) < next,
    ensures
        final(basin)@.len() == old(basin)@.len(),
        forall|j: int| 0 <= j < final(basin)@.len() ==> (#[trigger] final(basin)@[j]) < next,
        settled(final(basin)@, count@, next as int, node_floor(min_nodes as int)),
        final(basin)@ == merge_passes(
            hexes@,
            old(basin)@,
            count@,
            next as int,
            node_floor(min_nodes as int),
            next as nat,
        ),
{
    let floor: u64 = if min_nodes > 1 {
        min_nodes as u64
    } else {
        1
    };
    let ghost init = basin@;
    let ghost mut fuel: nat = next as nat;
    proof {
        lemma_live_count_bound(basin@, next as int);
    }
    let mut again = true;
    while again
        invariant
            basin@.len() == hexes@.len(),
            count@.len() == hexes@.len(),
            hexes@.len() <= max_hexes(),
            next <= hexes@.len(),
            indexes(index@, hexes@),
            strictly_sorted(hexes@),
            forall|i: int| 0 <= i < hexes@.len() ==> within(#[trigger] hexes@[i], max_coord() + max_rings()),
            forall|j: int| 0 <= j < basin@.len() ==> (#[trigger] basin@[j]) < next,
            floor == node_floor(min_nodes as int),
            !again ==> settled(basin@, count@, next as int, floor as int),
            fuel >= live_count(basin@, next as int),
            again ==> merge_passes(hexes@, init, count@, next as int, floor as int, next as nat) == merge_passes(
                hexes@,
                basin@,
                count@,
                next as int,
                floor as int,
                fuel,
            ),
            !again ==> merge_passes(hexes@, init, count@, next as int, floor as int, next as nat) == basin@,
        decreases live_count(basin@, next as int) + if again {
            1nat
        } else {
            0nat
        },
    {
        let (nodes, cells) = basin_sizes(basin, count, next);
        let mut ids: Vec<u32> = Vec::new();
        let mut b: u32 = 0;
        while b < next
            invariant
                b <= next,
                nodes@.len() == next,
                cells@.len() == next,
                forall|x: int| 0 <= x < next && #[trigger] cells@[x] > 0 ==> live(basin@, x),
                forall|y: int| 0 <= y < ids@.len() ==> (#[trigger] ids@[y]) < b && live(basin@, ids@[y] as int),
                forall|y: int|
                    0 <= y < ids@.len() ==> cells@[(#[trigger] ids@[y]) as int] > 0 && nodes@[ids@[y] as int] < floor,
                forall|y: int, z: int| 0 <= y < z < ids@.len() ==> ids@[y] < ids@[z],
                forall|x: int|
                    0 <= x < b && #[trigger] cells@[x] > 0 && nodes@[x] < floor ==> ids@.contains(x as u32),
            decreases next - b,
        {
            let ghost before = ids@;
            if cells[b as usize] > 0 && nodes[b as usize] < floor {
                ids.push(b);
                assert(ids@[before.len() as int] == b);
            }
            assert forall|x: int|
                0 <= x < b + 1 && #[trigger] cells@[x] > 0 && nodes@[x] < floor implies ids@.contains(
                x as u32,
            ) by {
                if x < b {
                    let y = choose|y: int| 0 <= y < before.len() && before[y] == x as u32;
                    assert(ids@[y] == before[y]);
                }
            }
            b = b + 1;
        }
        assert(ids@.no_duplicates()) by {
            assert forall|y: int, z: int| 0 <= y < ids@.len() && 0 <= z < ids@.len() && y != z implies ids@[y]
                != ids@[z] by {
                if y < z {
                    assert(ids@[y] < ids@[z]);
                } else {
                    assert(ids@[z] < ids@[y]);
                }
            }
        }
        let small = order_by_key(&ids, &nodes);
        assert forall|q: int| 0 <= q < small@.len() implies (#[trigger] small@[q]) < next && live(
            basin@,
            small@[q] as int,
        ) by {
            assert(small@.contains(small@[q]));
            assert(ids@.contains(small@[q]));
        }
        proof {
            assert forall|x: u32|
                #[trigger] small@.contains(x) <==> (x < next && live(basin@, x as int) && basin_nodes(
                    basin@,
                    count@,
                    x as int,
                    basin@.len() as int,
                ) < floor) by {
                if small@.contains(x) {
                    assert(ids@.contains(x));
                    let y = choose|y: int| 0 <= y < ids@.len() && ids@[y] == x;
                    assert(cells@[ids@[y] as int] > 0);
                }
                if x < next && live(basin@, x as int) && basin_nodes(basin@, count@, x as int, basin@.len() as int)
                    < floor {
                    assert(cells@[x as int] > 0);
                    assert(ids@.contains(x));
                }
            }
            assert forall|a: int, c: int| 0 <= a < c < small@.len() implies small_before(
                basin@,
                count@,
                #[trigger] small@[a] as int,
                #[trigger] small@[c] as int,
            ) by {
                assert(small@.contains(small@[a]) && small@.contains(small@[c]));
                assert(nodes@[small@[a] as int] == basin_nodes(basin@, count@, small@[a] as int, basin@.len() as int));
                assert(nodes@[small@[c] as int] == basin_nodes(basin@, count@, small@[c] as int, basin@.len() as int));
            }
            assert(is_small_order(small@, basin@, count@, next as int, floor as int));
            let chosen = small_order(basin@, count@, next as int, floor as int);
            lemma_small_order_unique(chosen, small@, basin@, count@, next as int, floor as int);
        }
        let ghost start = live_count(basin@, next as int);
        let ghost pass_start = basin@;
        proof {
            lemma_live_count_bound(basin@, next as int);
        }
        let mut merged: usize = 0;
        let mut s: usize = 0;
        while s < small.len()
            invariant
                s <= small@.len(),
                small@.no_duplicates(),
                forall|q: int| 0 <= q < small@.len() ==> (#[trigger] small@[q]) < next,
                forall|q: int| s <= q < small@.len() ==> live(basin@, #[trigger] small@[q] as int),
                live_count(basin@, next as int) + merged == start,
                start <= next,
                basin@.len() == hexes@.len(),
                hexes@.len() <= max_hexes(),
                next <= hexes@.len(),
                indexes(index@, hexes@),
                strictly_sorted(hexes@),
            strictly_sorted(hexes@),
                forall|i: int| 0 <= i < hexes@.len() ==> within(#[trigger] hexes@[i], max_coord() + max_rings()),
                forall|j: int| 0 <= j < basin@.len() ==> (#[trigger] basin@[j]) < next,
                merged == 0 ==> basin@ == pass_start,
                merged == 0 && s > 0 ==> forall|j: int|
                    0 <= j < pass_start.len() ==> #[trigger] pass_start[j] == small@[0],
                merged > 0 ==> exists|j: int| 0 <= j < pass_start.len() && pass_start[j] != small@[0],
                pass_from(hexes@, pass_start, small@, 0) == pass_from(hexes@, basin@, small@, s as int),
            decreases small@.len() - s,
        {
            let b = small[s];
            assert(live(basin@, small@[s as int] as int));
            let ghost before = basin@;
            let did = merge_one(basin, hexes, index, b, next);
            assert forall|q: int| s + 1 <= q < small@.len() implies live(basin@, #[trigger] small@[q] as int) by {
                assert(small@[q] != small@[s as int]);
                assert(live(before, small@[q] as int));
            }
            proof {
                // the fold just made is the rule's step
                if did {
                    let t = choose|t: int|
                        #[trigger] merge_target(hexes@, before, b as int, t) && t != b && forall|j: int|
                            0 <= j < before.len() ==> #[trigger] basin@[j] == (if before[j] == b {
                                t as u32
                            } else {
                                before[j]
                            });
                    let c = choose|t: int| merge_target(hexes@, before, b as int, t);
                    lemma_merge_target_unique(hexes@, before, b as int, t, c);
                    assert(basin@ =~= merge_step(hexes@, before, b as int));
                    if merged == 0 {
                        if s > 0 {
                            let w = choose|w: int| 0 <= w < before.len() && before[w] == b;
                            assert(pass_start[w] == small@[0]);
                            assert(small@[s as int] != small@[0]);
                        }
                    }
                } else {
                    assert(basin@ == merge_step(hexes@, before, b as int));
                }
                assert(pass_from(hexes@, before, small@, s as int) == pass_from(
                    hexes@,
                    merge_step(hexes@, before, small@[s as int] as int),
                    small@,
                    s + 1,
                ));
            }
            if did {
                merged = merged + 1;
            }
            s = s + 1;
        }
        proof {
            if merged == 0 {
                assert forall|b: int|
                    0 <= b < next && #[trigger] live(basin@, b) implies basin_nodes(
                    basin@,
                    count@,
                    b,
                    basin@.len() as int,
                ) >= floor || forall|j: int| 0 <= j < basin@.len() ==> basin@[j] == b by {
                    if small@.len() > 0 {
                        let j = choose|j: int| 0 <= j < basin@.len() && basin@[j] == b;
                        assert(pass_start[j] == small@[0]);
                    } else {
                        assert(cells@[b] > 0);
                        if nodes@[b] < floor {
                            assert(ids@.contains(b as u32));
                            assert(small@.contains(b as u32));
                        }
                    }
                }
            }
        }
        proof {
            let list = small_order(pass_start, count@, next as int, floor as int);
            assert(list == small@);
            if merged > 0 {
                assert(list.len() > 0 && exists|j: int| 0 <= j < pass_start.len() && pass_start[j] != list[0]);
                assert(fuel > 0);
                assert(pass_from(hexes@, basin@, small@, small@.len() as int) == basin@);
                assert(pass_from(hexes@, pass_start, small@, 0) == basin@);
                assert(merge_passes(hexes@, pass_start, count@, next as int, floor as int, fuel) == merge_passes(
                    hexes@,
                    basin@,
                    count@,
                    next as int,
                    floor as int,
                    (fuel - 1) as nat,
                ));
                fuel = (fuel - 1) as nat;
            } else {
                if list.len() > 0 {
                    assert forall|j: int| 0 <= j < pass_start.len() implies pass_start[j] == list[0] by {
                        assert(small@.len() > 0);
                    }
                }
                assert(merge_passes(hexes@, pass_start, count@, next as int, floor as int, fuel) == pass_start);
            }
        }
        again = merged > 0;
    }
}

/// The sum of `f` over `0..n`.
spec fn sum_to(f: spec_fn(int) -> int, n: int) -> int
    decreases n,
{
    if n <= 0 {
        0
    } else {
        sum_to(f, n - 1) + f(n - 1)
    }
}

proof fn lemma_sum_congruent(f: spec_fn(int) -> int, g: spec_fn(int) -> int, n: int)
    requires
        forall|j: int| 0 <= j < n ==> #[trigger] f(j) == g(j),
    ensures
        sum_to(f, n) == sum_to(g, n),
    decreases n,
{
    if n > 0 {
        lemma_sum_congruent(f, g, n - 1);
    }
}

proof fn lemma_sum_zero(f: spec_fn(int) -> int, n: int)
    requires
        forall|j: int| 0 <= j < n ==> #[trigger] f(j) == 0,
    ensures
        sum_to(f, n) == 0,
    decreases n,
{
    if n > 0 {
        lemma_sum_zero(f, n - 1);
    }
}

/// Taking one term out of a sum.
proof fn lemma_sum_point(f: spec_fn(int) -> int, p: int, n: int)
    requires
        0 <= p < n,
    ensures
        sum_to(f, n) == sum_to(|j: int| if j == p { 0 } else { f(j) }, n) + f(p),
    decreases n,
{
    let g = |j: int| if j == p { 0 } else { f(j) };
    if p < n - 1 {
        lemma_sum_point(f, p, n - 1);
    } else {
        lemma_sum_congruent(f, g, n - 1);
    }
}

/// A sum over `0..n` whose nonzero terms all sit at distinct places `pos(u)`,
/// `u` in `0..m`, is the sum of those terms, `h(u)`, over `0..m`.
proof fn lemma_sum_reindex(
    f: spec_fn(int) -> int,
    pos: spec_fn(int) -> int,
    h: spec_fn(int) -> int,
    n: int,
    m: int,
)
    requires
        0 <= m,
        forall|u: int| 0 <= u < m ==> 0 <= #[trigger] pos(u) < n,
        forall|u: int, v: int| 0 <= u < m && 0 <= v < m && u != v ==> #[trigger] pos(u) != #[trigger] pos(v),
        forall|j: int|
            0 <= j < n && #[trigger] f(j) != 0 ==> exists|u: int| 0 <= u < m && #[trigger] pos(u) == j,
        forall|u: int| 0 <= u < m ==> #[trigger] h(u) == f(pos(u)),
    ensures
        sum_to(f, n) == sum_to(h, m),
    decreases m,
{
    if m == 0 {
        assert forall|j: int| 0 <= j < n implies #[trigger] f(j) == 0 by {
            if f(j) != 0 {
                assert(exists|u: int| 0 <= u < m && #[trigger] pos(u) == j);
            }
        }
        lemma_sum_zero(f, n);
    } else {
        let p = pos(m - 1);
        let g = |j: int| if j == p { 0 } else { f(j) };
        lemma_sum_point(f, p, n);
        assert forall|j: int| 0 <= j < n && #[trigger] g(j) != 0 implies exists|u: int|
            0 <= u < m - 1 && #[trigger] pos(u) == j by {
            let u = choose|u: int| 0 <= u < m && #[trigger] pos(u) == j;
            assert(u != m - 1);
        }
        assert forall|u: int| 0 <= u < m - 1 implies #[trigger] h(u) == g(pos(u)) by {
            assert(pos(u) != pos(m - 1));
        }
        lemma_sum_reindex(g, pos, h, n, m - 1);
    }
}

proof fn lemma_basin_nodes_sum(basin: Seq<u32>, count: Seq<u32>, b: int, f: spec_fn(int) -> int, i: int)
    requires
        forall|j: int| 0 <= j < i ==> #[trigger] f(j) == if basin[j] == b { count[j] as int } else { 0 },
    ensures
        basin_nodes(basin, count, b, i) == sum_to(f, i),
    decreases i,
{
    if i > 0 {
        lemma_basin_nodes_sum(basin, count, b, f, i - 1);
    }
}

/// The node count of occupied hex `t`, none past the end of `counts`.
pub open spec fn weight(counts: Seq<u32>, t: int) -> int {
    if 0 <= t < counts.len() {
        counts[t] as int
    } else {
        0
    }
}

/// Nodes labelled `l` among the first `t` occupied hexes.
pub open spec fn label_nodes(out: Seq<u32>, counts: Seq<u32>, l: int, t: int) -> int
    decreases t,
{
    if t <= 0 {
        0
    } else {
        label_nodes(out, counts, l, t - 1) + if out[t - 1] == l {
            weight(counts, t - 1)
        } else {
            0
        }
    }
}

proof fn lemma_label_nodes_sum(out: Seq<u32>, counts: Seq<u32>, l: int, g: spec_fn(int) -> int, t: int)
    requires
        forall|u: int| 0 <= u < t ==> #[trigger] g(u) == if out[u] == l { weight(counts, u) } else { 0 },
    ensures
        label_nodes(out, counts, l, t) == sum_to(g, t),
    decreases t,
{
    if t > 0 {
        lemma_label_nodes_sum(out, counts, l, g, t - 1);
    }
}

/// A number handed out by `positions` names one entry only.
proof fn lemma_rank_one(ranked: Seq<u32>, rank: Seq<u32>, c: int)
    requires
        ranked.no_duplicates(),
        forall|p: int| 0 <= p < ranked.len() ==> #[trigger] rank[ranked[p] as int] == p,
        forall|x: int|
            0 <= x < rank.len() ==> (#[trigger] rank[x] == u32::MAX <==> !ranked.contains(x as u32)),
        forall|x: int| 0 <= x < rank.len() ==> (#[trigger] rank[x] == u32::MAX || rank[x] < ranked.len()),
        rank.len() <= u32::MAX,
        0 <= c < rank.len(),
        rank[c] != u32::MAX,
    ensures
        forall|x: int| 0 <= x < rank.len() && #[trigger] rank[x] == rank[c] ==> x == c,
        rank[c] < ranked.len(),
        ranked[rank[c] as int] == c,
{
    assert(ranked.contains(c as u32));
    let q = choose|q: int| 0 <= q < ranked.len() && ranked[q] == c as u32;
    assert(rank[ranked[q] as int] == q);
    assert forall|x: int| 0 <= x < rank.len() && #[trigger] rank[x] == rank[c] implies x == c by {
        assert(ranked.contains(x as u32));
        let q2 = choose|q2: int| 0 <= q2 < ranked.len() && ranked[q2] == x as u32;
        assert(rank[ranked[q2] as int] == q2);
    }
}

/// The nodes under a label are the nodes of the basin that carries it.
proof fn lemma_label_is_basin(
    out: Seq<u32>,
    counts: Seq<u32>,
    basin: Seq<u32>,
    count: Seq<u32>,
    pos: spec_fn(int) -> int,
    rank: Seq<u32>,
    c: int,
)
    requires
        basin.len() == count.len(),
        forall|u: int| 0 <= u < out.len() ==> 0 <= #[trigger] pos(u) < basin.len(),
        forall|u: int, v: int|
            0 <= u < out.len() && 0 <= v < out.len() && u != v ==> #[trigger] pos(u) != #[trigger] pos(v),
        forall|j: int|
            0 <= j < basin.len() && #[trigger] count[j] > 0 ==> exists|u: int|
                0 <= u < out.len() && #[trigger] pos(u) == j,
        forall|u: int| 0 <= u < out.len() ==> #[trigger] count[pos(u)] == weight(counts, u),
        forall|u: int| 0 <= u < out.len() ==> #[trigger] out[u] == rank[basin[pos(u)] as int],
        forall|j: int| 0 <= j < basin.len() ==> (#[trigger] basin[j]) < rank.len(),
        0 <= c < rank.len(),
        forall|x: int| 0 <= x < rank.len() && #[trigger] rank[x] == rank[c] ==> x == c,
    ensures
        label_nodes(out, counts, rank[c] as int, out.len() as int) == basin_nodes(
            basin,
            count,
            c,
            basin.len() as int,
        ),
{
    let n = basin.len() as int;
    let m = out.len() as int;
    let f = |j: int| if basin[j] == c { count[j] as int } else { 0 };
    let g = |u: int| if out[u] == rank[c] { weight(counts, u) } else { 0 };
    assert forall|j: int| 0 <= j < n && #[trigger] f(j) != 0 implies exists|u: int|
        0 <= u < m && #[trigger] pos(u) == j by {
        assert(count[j] > 0);
    }
    assert forall|u: int| 0 <= u < m implies #[trigger] g(u) == f(pos(u)) by {
        let j = pos(u);
        assert(out[u] == rank[basin[j] as int]);
        assert(count[j] == weight(counts, u));
        if out[u] == rank[c] {
            assert(basin[j] == c);
        }
    }
    lemma_sum_reindex(f, pos, g, n, m);
    lemma_basin_nodes_sum(basin, count, c, f, n);
    lemma_label_nodes_sum(out, counts, rank[c] as int, g, m);
}

/// The cells that basins are cut from: every cell within `rings` steps of an
/// occupied hex, each once, in coordinate order.
pub open spec fn is_cells(cells: Seq<(i32, i32)>, occupied: Seq<(i32, i32)>, rings: int) -> bool {
    &&& strictly_sorted(cells)
    &&& forall|c: (i32, i32)| #[trigger] cells.contains(c) <==> near_occupied(occupied, rings, c)
}

/// The node count of each cell.
pub open spec fn cell_counts(occupied: Seq<(i32, i32)>, counts: Seq<u32>, cells: Seq<(i32, i32)>) -> Seq<u32> {
    Seq::new(cells.len(), |j: int| last_count(occupied, counts, cells[j], counted(occupied, counts)))
}

/// Hex `x` drains before hex `y`: denser, or as dense and first in
/// coordinate order.
pub open spec fn density_before(total: Seq<u64>, x: int, y: int) -> bool {
    total[x] > total[y] || (total[x] == total[y] && x < y)
}

/// `order` lists every hex once, densest first.
pub open spec fn is_density_order(order: Seq<u32>, total: Seq<u64>) -> bool {
    &&& order.len() == total.len()
    &&& order.no_duplicates()
    &&& forall|x: u32| #[trigger] order.contains(x) <==> x < total.len()
    &&& forall|a: int, c: int|
        0 <= a < c < order.len() ==> density_before(total, #[trigger] order[a] as int, #[trigger] order[c] as int)
}

/// The watershed of `cells`: `total` is each cell's disc total, `order`
/// drains the cells densest first, and `drained` is the basin each drains
/// into.
pub open spec fn drain_trace(
    cells: Seq<(i32, i32)>,
    count: Seq<u32>,
    rings: int,
    total: Seq<u64>,
    order: Seq<u32>,
    drained: Seq<u32>,
) -> bool {
    let n = cells.len() as int;
    &&& total.len() == n
    &&& forall|j: int| 0 <= j < n ==> #[trigger] total[j] == disc_total(cells, count, cells[j], rings, n)
    &&& is_density_order(order, total)
    &&& drained.len() == n
    &&& forall|p: int| 0 <= p < n ==> #[trigger] drains(cells, order, total, drained, p)
}

/// Basin `x` is numbered before basin `y`: more nodes, or as many and a
/// lower number.
pub open spec fn size_before(basin: Seq<u32>, count: Seq<u32>, x: int, y: int) -> bool {
    let n = basin.len() as int;
    basin_nodes(basin, count, x, n) > basin_nodes(basin, count, y, n) || (basin_nodes(basin, count, x, n)
        == basin_nodes(basin, count, y, n) && x < y)
}

/// `ranked` lists the basins below `next` that hold a node, each once,
/// largest first.
pub open spec fn is_ranked(ranked: Seq<u32>, basin: Seq<u32>, count: Seq<u32>, next: int) -> bool {
    &&& ranked.no_duplicates()
    &&& forall|c: u32|
        #[trigger] ranked.contains(c) <==> (c < next && basin_nodes(basin, count, c as int, basin.len() as int)
            > 0)
    &&& forall|a: int, c: int|
        0 <= a < c < ranked.len() ==> size_before(basin, count, #[trigger] ranked[a] as int, #[trigger] ranked[c] as int)
}

/// The number a basin is given: its place among the ranked basins, or
/// `u32::MAX` for one that holds no node.
pub open spec fn rank_in(ranked: Seq<u32>, c: u32) -> u32 {
    if ranked.contains(c) {
        (choose|p: int| 0 <= p < ranked.len() && ranked[p] == c) as u32
    } else {
        u32::MAX
    }
}

/// The basins once small ones are folded away.
pub open spec fn settled_basins(
    cells: Seq<(i32, i32)>,
    count: Seq<u32>,
    order: Seq<u32>,
    drained: Seq<u32>,
    min_nodes: int,
) -> Seq<u32> {
    let next = starters(cells, order, cells.len() as int);
    merge_passes(cells, drained, count, next as int, node_floor(min_nodes), next)
}

/// Drains the cells densest first and folds the small basins away.
#[verifier::spinoff_prover]
#[verifier::rlimit(60)]
fn drain_cells(
    hexes: &Vec<(i32, i32)>,
    index: &FxHashMap<(i32, i32), usize>,
    count: &Vec<u32>,
    rings: usize,
    min_nodes: usize,
) -> (r: (Vec<u32>, u32))
    requires
        rings <= max_rings(),
        hexes@.len() <= max_hexes(),
        hexes@.len() > 0 ==> disc_bound(rings as int) <= max_hexes(),
        indexes(index@, hexes@),
        count@.len() == hexes@.len(),
        forall|i: int| 0 <= i < hexes@.len() ==> within(#[trigger] hexes@[i], max_coord() + rings),
        strictly_sorted(hexes@),
    ensures
        r.0@.len() == hexes@.len(),
        r.1 <= hexes@.len(),
        forall|j: int| 0 <= j < hexes@.len() ==> (#[trigger] r.0@[j]) < r.1,
        settled(r.0@, count@, r.1 as int, node_floor(min_nodes as int)),
        settles(hexes@, count@, rings as int, min_nodes as int, r.1 as int, r.0@),
{
    let n = hexes.len();
    assert forall|i: int| 0 <= i < hexes@.len() implies within(#[trigger] hexes@[i], max_coord() + max_rings()) by {
        assert(within(hexes@[i], max_coord() + rings));
    }
    let total = disc_totals(hexes, index, count, rings);
    // hexes by density, densest first, ties in coordinate order
    let mut ids: Vec<u32> = Vec::new();
    let mut key: Vec<u64> = Vec::new();
    let mut i: usize = 0;
    while i < n
        invariant
            i <= n,
            n <= max_hexes(),
            total@.len() == n,
            ids@.len() == i,
            key@.len() == i,
            forall|j: int| 0 <= j < i ==> #[trigger] ids@[j] == j,
            forall|j: int| 0 <= j < i ==> #[trigger] key@[j] == u64::MAX - total@[j],
        decreases n - i,
    {
        ids.push(i as u32);
        key.push(u64::MAX - total[i]);
        i = i + 1;
    }
    assert(ids@.no_duplicates());
    let order = order_by_key(&ids, &key);
    assert forall|x: u32| #[trigger] order@.contains(x) <==> x < n by {
        if x < n {
            assert(ids@[x as int] == x);
        }
    }
    assert forall|a: int, c: int| 0 <= a < c < order@.len() implies density_before(
        total@,
        #[trigger] order@[a] as int,
        #[trigger] order@[c] as int,
    ) by {
        assert(order@.contains(order@[a]) && order@.contains(order@[c]));
    }
    let (mut basin, next) = watershed(hexes, index, &total, &order);
    let ghost drained = basin@;
    merge_small(&mut basin, hexes, index, count, next, min_nodes);
    assert(settles(hexes@, count@, rings as int, min_nodes as int, next as int, basin@)) by {
        assert(drain_trace(hexes@, count@, rings as int, total@, order@, drained));
        assert(basin@ =~= settled_basins(hexes@, count@, order@, drained, min_nodes as int));
    }
    (basin, next)
}

/// `basin` is what draining `cells` and folding the small basins away
/// gives, with `next` the number of basins the draining opened.
pub open spec fn settles(
    cells: Seq<(i32, i32)>,
    count: Seq<u32>,
    rings: int,
    min_nodes: int,
    next: int,
    basin: Seq<u32>,
) -> bool {
    exists|total: Seq<u64>, order: Seq<u32>, drained: Seq<u32>|
        #[trigger] drain_trace(cells, count, rings, total, order, drained) && next == starters(
            cells,
            order,
            cells.len() as int,
        ) && basin == settled_basins(cells, count, order, drained, min_nodes)
}

/// Settles the basins of the cells around the occupied hexes: drains them
/// and folds the small basins away.
#[verifier::spinoff_prover]
#[verifier::rlimit(60)]
fn settle_basins(occupied: &[(i32, i32)], counts: &[u32], rings: usize, min_nodes: usize) -> (r: (
    Vec<(i32, i32)>,
    FxHashMap<(i32, i32), usize>,
    Vec<u32>,
    Vec<u32>,
    u32,
))
    requires
        rings <= max_rings(),
        forall|t: int| 0 <= t < occupied@.len() ==> within(#[trigger] occupied@[t], max_coord()),
        occupied@.len() * disc_bound(rings as int) <= max_hexes(),
    ensures
        is_cells(r.0@, occupied@, rings as int),
        r.0@.len() <= max_hexes(),
        indexes(r.1@, r.0@),
        forall|t: int| 0 <= t < occupied@.len() ==> r.0@.contains(#[trigger] occupied@[t]),
        r.2@ == cell_counts(occupied@, counts@, r.0@),
        each_count_placed(r.2@, r.1@, occupied@, counts@),
        occupied@.no_duplicates() ==> forall|u: int|
            0 <= u < occupied@.len() && u < counts@.len() ==> #[trigger] r.2@[r.1@[occupied@[u]] as int]
                == counts@[u],
        r.3@.len() == r.0@.len(),
        r.4 <= r.0@.len(),
        forall|j: int| 0 <= j < r.0@.len() ==> (#[trigger] r.3@[j]) < r.4,
        settled(r.3@, r.2@, r.4 as int, node_floor(min_nodes as int)),
        settles(r.0@, r.2@, rings as int, min_nodes as int, r.4 as int, r.3@),
{
    let hexes = hex_set(occupied, rings);
    let n = hexes.len();
    assert(disc_bound(rings as int) >= 1) by (nonlinear_arith)
        requires
            rings >= 0,
    ;
    assert(n <= max_hexes()) by (nonlinear_arith)
        requires
            n <= occupied@.len() * disc_bound(rings as int),
            occupied@.len() * disc_bound(rings as int) <= max_hexes(),
    ;
    assert(n > 0 ==> disc_bound(rings as int) <= max_hexes()) by (nonlinear_arith)
        requires
            n <= occupied@.len() * disc_bound(rings as int),
            occupied@.len() * disc_bound(rings as int) <= max_hexes(),
            disc_bound(rings as int) >= 1,
    ;
    let index = index_hexes(&hexes);
    let count = place_counts(occupied, counts, &hexes, &index);
    assert(count@ =~= cell_counts(occupied@, counts@, hexes@));
    let (basin, next) = drain_cells(&hexes, &index, &count, rings, min_nodes);
    (hexes, index, count, basin, next)
}

/// `out` numbers each occupied hex as the basins of `cells` do: the cells
/// are drained and settled, `ranked` lists the basins that hold a node by
/// size, and each hex gets the place of its cell's basin in that list.
pub open spec fn numbered_as(
    occupied: Seq<(i32, i32)>,
    counts: Seq<u32>,
    rings: int,
    min_nodes: int,
    cells: Seq<(i32, i32)>,
    next: int,
    basin: Seq<u32>,
    ranked: Seq<u32>,
    out: Seq<u32>,
) -> bool {
    let count = cell_counts(occupied, counts, cells);
    &&& is_cells(cells, occupied, rings)
    &&& settles(cells, count, rings, min_nodes, next, basin)
    &&& is_ranked(ranked, basin, count, next)
    &&& out.len() == occupied.len()
    &&& forall|t: int|
        0 <= t < occupied.len() ==> #[trigger] out[t] == rank_in(ranked, basin[slot(cells, occupied[t])->0])
}

/// The basin numbering of the occupied hexes, as draining, settling and
/// ranking give it.
pub open spec fn basin_trace(
    occupied: Seq<(i32, i32)>,
    counts: Seq<u32>,
    rings: int,
    min_nodes: int,
    out: Seq<u32>,
) -> bool {
    exists|cells: Seq<(i32, i32)>, next: int, basin: Seq<u32>, ranked: Seq<u32>|
        #[trigger] numbered_as(occupied, counts, rings, min_nodes, cells, next, basin, ranked, out)
}

/// Splits the occupied hexes into density basins: each hex's density is the
/// node count over the disc of `rings` rings around it, every hex drains to its
/// densest neighbour, basins under `min_nodes` nodes are folded into a
/// neighbour, and the basins are numbered by node count, largest first.
/// Returns the basin of each occupied hex, `u32::MAX` for one in a basin that
/// holds no node.
#[verifier::spinoff_prover]
#[verifier::rlimit(60)]
pub fn basins(occupied: &[(i32, i32)], counts: &[u32], rings: usize, min_nodes: usize) -> (out: Vec<
    u32,
>)
    requires
        rings <= max_rings(),
        forall|t: int| 0 <= t < occupied@.len() ==> within(#[trigger] occupied@[t], max_coord()),
        occupied@.len() * disc_bound(rings as int) <= max_hexes(),
    ensures
        out@.len() == occupied@.len(),
        forall|t: int, l: int|
            0 <= t < out@.len() && #[trigger] out@[t] != u32::MAX && 0 <= l < out@[t] ==> #[trigger] used(
                out@,
                l,
            ),
        occupied@.no_duplicates() ==> forall|t: int|
            0 <= t < occupied@.len() && t < counts@.len() && #[trigger] counts@[t] > 0 ==> out@[t]
                != u32::MAX,
        (exists|t: int| 0 <= t < out@.len() && out@[t] == u32::MAX) ==> forall|u: int|
            0 <= u < out@.len() ==> #[trigger] out@[u] == u32::MAX,
        occupied@.no_duplicates() ==> forall|l: int|
            0 <= l < u32::MAX && #[trigger] used(out@, l) ==> label_nodes(
                out@,
                counts@,
                l,
                out@.len() as int,
            ) >= node_floor(min_nodes as int) || forall|u: int| 0 <= u < out@.len() ==> out@[u] == l,
        occupied@.no_duplicates() ==> forall|l: int, k: int|
            0 <= l < k < u32::MAX && used(out@, k) ==> #[trigger] label_nodes(
                out@,
                counts@,
                l,
                out@.len() as int,
            ) >= #[trigger] label_nodes(out@, counts@, k, out@.len() as int),
        basin_trace(occupied@, counts@, rings as int, min_nodes as int, out@),
{
    let (hexes, index, count, basin, next) = settle_basins(occupied, counts, rings, min_nodes);
    let n = hexes.len();
    // number the basins that hold nodes by size
    let (nodes, _) = basin_sizes(&basin, &count, next);
    let mut held: Vec<u32> = Vec::new();
    let mut b: u32 = 0;
    while b < next
        invariant
            b <= next,
            nodes@.len() == next,
            forall|y: int| 0 <= y < held@.len() ==> (#[trigger] held@[y]) < b,
            forall|y: int, z: int| 0 <= y < z < held@.len() ==> held@[y] < held@[z],
            forall|x: u32| #[trigger] held@.contains(x) <==> (x < b && nodes@[x as int] > 0),
            held@.len() <= b,
        decreases next - b,
    {
        if nodes[b as usize] > 0 {
            let ghost before = held@;
            held.push(b);
            assert forall|x: u32| #[trigger] held@.contains(x) <==> (before.contains(x) || x == b) by {
                if held@.contains(x) {
                    let y = choose|y: int| 0 <= y < held@.len() && held@[y] == x;
                    if y < before.len() {
                        assert(before[y] == x);
                    }
                }
                if before.contains(x) {
                    let y = choose|y: int| 0 <= y < before.len() && before[y] == x;
                    assert(held@[y] == x);
                }
                if x == b {
                    assert(held@[before.len() as int] == x);
                }
            }
        }
        b = b + 1;
    }
    assert(held@.no_duplicates()) by {
        assert forall|y: int, z: int| 0 <= y < held@.len() && 0 <= z < held@.len() && y != z implies held@[y]
            != held@[z] by {
            if y < z {
                assert(held@[y] < held@[z]);
            } else {
                assert(held@[z] < held@[y]);
            }
        }
    }
    let mut size_key: Vec<u64> = Vec::new();
    let mut b: usize = 0;
    while b < next as usize
        invariant
            b <= next,
            nodes@.len() == next,
            size_key@.len() == b,
            forall|x: int| 0 <= x < b ==> #[trigger] size_key@[x] == u64::MAX - nodes@[x],
        decreases next - b,
    {
        size_key.push(u64::MAX - nodes[b]);
        b = b + 1;
    }
    let ranked = order_by_key(&held, &size_key);
    assert forall|p: int| 0 <= p < ranked@.len() implies (#[trigger] ranked@[p]) < next by {
        assert(ranked@.contains(ranked@[p]));
        assert(held@.contains(ranked@[p]));
    }
    let rank = positions(&ranked, next as usize);
    let mut out: Vec<u32> = Vec::new();
    let mut t: usize = 0;
    while t < occupied.len()
        invariant
            t <= occupied@.len(),
            indexes(index@, hexes@),
            basin@.len() == hexes@.len(),
            rank@.len() == next,
            forall|j: int| 0 <= j < basin@.len() ==> (#[trigger] basin@[j]) < next,
            forall|u: int| 0 <= u < occupied@.len() ==> hexes@.contains(#[trigger] occupied@[u]),
            out@.len() == t,
            forall|u: int| 0 <= u < t ==> #[trigger] out@[u] == rank@[basin@[index@[occupied@[u]] as int] as int],
        decreases occupied@.len() - t,
    {
        let h = occupied[t];
        assert(hexes@.contains(h));
        let ghost x = choose|x: int| 0 <= x < hexes@.len() && hexes@[x] == h;
        assert(index@.contains_key(hexes@[x]));
        match hex_map_get(&index, h) {
            Some(j) => {
                proof {
                    lemma_lookup(index@, hexes@, h);
                }
                out.push(rank[basin[j] as usize]);
            },
            None => {
                assert(false);
            },
        }
        t = t + 1;
    }
    let ghost pos = |u: int| index@[occupied@[u]] as int;
    assert forall|u: int| 0 <= u < occupied@.len() implies 0 <= #[trigger] pos(u) < hexes@.len() by {
        lemma_lookup(index@, hexes@, occupied@[u]);
    }
    // every number below a used one is used
    assert forall|t: int, l: int|
        0 <= t < out@.len() && #[trigger] out@[t] != u32::MAX && 0 <= l < out@[t] implies #[trigger] used(
            out@,
            l,
        ) by {
        assert(0 <= pos(t) < hexes@.len());
        assert(rank@[basin@[pos(t)] as int] < ranked@.len());
        let c = ranked@[l];
        assert(ranked@.contains(c));
        assert(held@.contains(c));
        assert(nodes@[c as int] > 0);
        let j = choose|j: int| 0 <= j < basin@.len() && basin@[j] == c && #[trigger] count@[j] > 0;
        let u = choose|u: int|
            0 <= u < occupied@.len() && u < counts@.len() && #[trigger] index@[occupied@[u]] == j;
        assert(out@[u] == rank@[basin@[j] as int]);
        assert(rank@[ranked@[l] as int] == l);
    }
    // a hex with nodes of its own lands in a numbered basin
    assert(occupied@.no_duplicates() ==> forall|t: int|
        0 <= t < occupied@.len() && t < counts@.len() && #[trigger] counts@[t] > 0 ==> out@[t]
            != u32::MAX) by {
        if occupied@.no_duplicates() {
            assert forall|t: int|
                0 <= t < occupied@.len() && t < counts@.len() && #[trigger] counts@[t] > 0 implies out@[t]
                != u32::MAX by {
                let j = pos(t);
                assert(0 <= j < hexes@.len());
                assert(count@[j] == counts@[t]);
                assert(nodes@[basin@[j] as int] >= count@[j]);
                assert(held@.contains(basin@[j]));
                assert(ranked@.contains(basin@[j]));
            }
        }
    }
    assert(node_floor(min_nodes as int) >= 1);
    // an unnumbered hex means that no basin holds a node
    assert((exists|t: int| 0 <= t < out@.len() && out@[t] == u32::MAX) ==> forall|u: int|
        0 <= u < out@.len() ==> #[trigger] out@[u] == u32::MAX) by {
        if exists|t: int| 0 <= t < out@.len() && out@[t] == u32::MAX {
            let t = choose|t: int| 0 <= t < out@.len() && out@[t] == u32::MAX;
            assert(0 <= pos(t) < hexes@.len());
            let c = basin@[pos(t)];
            assert(!ranked@.contains(c));
            assert(!held@.contains(c));
            assert(nodes@[c as int] == 0);
            assert(live(basin@, c as int));
            assert forall|u: int| 0 <= u < out@.len() implies #[trigger] out@[u] == u32::MAX by {
                assert(0 <= pos(u) < hexes@.len());
                assert(basin@[pos(u)] == c);
            }
        }
    }
    proof {
        if occupied@.no_duplicates() {
            assert forall|u: int, v: int|
                0 <= u < out@.len() && 0 <= v < out@.len() && u != v implies #[trigger] pos(u)
                != #[trigger] pos(v) by {
                lemma_lookup(index@, hexes@, occupied@[u]);
                lemma_lookup(index@, hexes@, occupied@[v]);
            }
            assert forall|j: int|
                0 <= j < count@.len() && #[trigger] count@[j] > 0 implies exists|u: int|
                    0 <= u < out@.len() && #[trigger] pos(u) == j by {
                let u = choose|u: int|
                    0 <= u < occupied@.len() && u < counts@.len() && #[trigger] index@[occupied@[u]] == j;
                assert(pos(u) == j);
            }
            assert forall|u: int| 0 <= u < out@.len() implies #[trigger] count@[pos(u)] == weight(counts@, u) by {
                if u >= counts@.len() && count@[pos(u)] > 0 {
                    let v = choose|v: int|
                        0 <= v < occupied@.len() && v < counts@.len() && #[trigger] index@[occupied@[v]]
                            == pos(u);
                    assert(pos(v) == pos(u));
                }
            }
            // the nodes under each used number
            assert forall|l: int|
                0 <= l < u32::MAX && #[trigger] used(out@, l) implies label_nodes(
                out@,
                counts@,
                l,
                out@.len() as int,
            ) >= node_floor(min_nodes as int) || forall|u: int| 0 <= u < out@.len() ==> out@[u] == l by {
                let t = choose|t: int| 0 <= t < out@.len() && out@[t] == l;
                assert(0 <= pos(t) < hexes@.len());
                let c = basin@[pos(t)] as int;
                assert(out@[t] == rank@[c]);
                lemma_rank_one(ranked@, rank@, c);
                lemma_label_is_basin(out@, counts@, basin@, count@, pos, rank@, c);
                assert(live(basin@, c));
                if !(basin_nodes(basin@, count@, c, basin@.len() as int) >= node_floor(min_nodes as int)) {
                    assert forall|u: int| 0 <= u < out@.len() implies out@[u] == l by {
                        assert(0 <= pos(u) < hexes@.len());
                        assert(basin@[pos(u)] == c);
                    }
                }
            }
            // numbers go by falling node count
            assert forall|l: int, k: int|
                0 <= l < k < u32::MAX && used(out@, k) implies #[trigger] label_nodes(
                out@,
                counts@,
                l,
                out@.len() as int,
            ) >= #[trigger] label_nodes(out@, counts@, k, out@.len() as int) by {
                let t = choose|t: int| 0 <= t < out@.len() && out@[t] == k;
                assert(0 <= pos(t) < hexes@.len());
                let ck = basin@[pos(t)] as int;
                assert(out@[t] == rank@[ck]);
                lemma_rank_one(ranked@, rank@, ck);
                let cl = ranked@[l] as int;
                assert(rank@[ranked@[l] as int] == l);
                assert(ranked@.contains(ranked@[l]));
                lemma_rank_one(ranked@, rank@, cl);
                lemma_label_is_basin(out@, counts@, basin@, count@, pos, rank@, ck);
                lemma_label_is_basin(out@, counts@, basin@, count@, pos, rank@, cl);
                assert(pair_lt(
                    (size_key@[ranked@[l] as int], ranked@[l] as u64),
                    (size_key@[ranked@[k] as int], ranked@[k] as u64),
                ));
            }
        }
    }
    // the numbering is the one the trace gives
    assert(numbered_as(
        occupied@,
        counts@,
        rings as int,
        min_nodes as int,
        hexes@,
        next as int,
        basin@,
        ranked@,
        out@,
    )) by {
        assert forall|c: u32| #[trigger] ranked@.contains(c) <==> (c < next && basin_nodes(
            basin@,
            count@,
            c as int,
            basin@.len() as int,
        ) > 0) by {
            assert(ranked@.contains(c) <==> held@.contains(c));
        }
        assert forall|a: int, c: int| 0 <= a < c < ranked@.len() implies size_before(
            basin@,
            count@,
            #[trigger] ranked@[a] as int,
            #[trigger] ranked@[c] as int,
        ) by {
            assert(ranked@.contains(ranked@[a]) && ranked@.contains(ranked@[c]));
            assert(held@.contains(ranked@[a]) && held@.contains(ranked@[c]));
            assert(pair_lt(
                (size_key@[ranked@[a] as int], ranked@[a] as u64),
                (size_key@[ranked@[c] as int], ranked@[c] as u64),
            ));
        }
        assert forall|t: int| 0 <= t < occupied@.len() implies #[trigger] out@[t] == rank_in(
            ranked@,
            basin@[slot(hexes@, occupied@[t])->0],
        ) by {
            lemma_slot(index@, hexes@, occupied@[t]);
            lemma_lookup(index@, hexes@, occupied@[t]);
            let c = basin@[pos(t)];
            assert(c < next);
            if ranked@.contains(c) {
                let q = choose|q: int| 0 <= q < ranked@.len() && ranked@[q] == c;
                assert(rank@[ranked@[q] as int] == q);
                assert forall|q2: int| 0 <= q2 < ranked@.len() && ranked@[q2] == c implies q2 == q by {
                    assert(ranked@.no_duplicates());
                }
            }
        }
    }
    out
}

/// A cut of the nodes into territories: the territory of each node and the
/// node count of each territory.
pub struct Cut {
    pub membership: Vec<u32>,
    pub sizes: Vec<usize>,
}

/// The (region, continent) key of each node, over the nodes both cuts cover.
pub open spec fn vote_keys(regions: Seq<u32>, continents: Seq<u32>) -> Seq<u64> {
    let n = if regions.len() <= continents.len() {
        regions.len()
    } else {
        continents.len()
    };
    Seq::new(n, |i: int| pair_key(regions[i], continents[i]) as u64)
}

/// How many nodes lie in region `r` and continent `c` at once.
pub open spec fn votes(regions: Seq<u32>, continents: Seq<u32>, r: u32, c: u32) -> nat {
    occurrences(vote_keys(regions, continents), pair_key(r, c) as u64)
}

/// The tally of a sequence of keys: each key that occurs, with how often.
spec fn tally(s: Seq<u64>) -> Map<u64, usize>
    decreases s.len(),
{
    if s.len() == 0 {
        Map::empty()
    } else {
        let m = tally(s.drop_last());
        let k = s.last();
        m.insert(
            k,
            if m.contains_key(k) {
                (m[k] + 1) as usize
            } else {
                1usize
            },
        )
    }
}

proof fn lemma_occurrences_le_len(s: Seq<u64>, k: u64)
    ensures
        occurrences(s, k) <= s.len(),
    decreases s.len(),
{
    if s.len() > 0 {
        lemma_occurrences_le_len(s.drop_last(), k);
    }
}

proof fn lemma_occurrences_witness(s: Seq<u64>, k: u64)
    requires
        occurrences(s, k) > 0,
    ensures
        exists|i: int| 0 <= i < s.len() && s[i] == k,
    decreases s.len(),
{
    if s.last() != k {
        lemma_occurrences_witness(s.drop_last(), k);
        let i = choose|i: int| 0 <= i < s.drop_last().len() && s.drop_last()[i] == k;
        assert(s[i] == k);
    } else {
        assert(s[s.len() - 1] == k);
    }
}

proof fn lemma_tally(s: Seq<u64>, k: u64)
    requires
        s.len() <= usize::MAX,
    ensures
        tally(s).contains_key(k) <==> occurrences(s, k) > 0,
        tally(s).contains_key(k) ==> tally(s)[k] == occurrences(s, k),
    decreases s.len(),
{
    if s.len() > 0 {
        lemma_tally(s.drop_last(), k);
        lemma_tally(s.drop_last(), s.last());
        lemma_occurrences_le_len(s.drop_last(), s.last());
    }
}

/// Every key splits into the two halves it is made of.
proof fn lemma_key_split(key: u64)
    ensures
        0 <= key_hi(key) < half_limit(),
        0 <= key_lo(key) < half_limit(),
        pair_key(key_hi(key) as u32, key_lo(key) as u32) == key,
{
    assert(key as int / 0x1_0000_0000 < 0x1_0000_0000) by (nonlinear_arith);
    assert(key as int == (key as int / 0x1_0000_0000) * 0x1_0000_0000 + key as int % 0x1_0000_0000) by (nonlinear_arith);
}

spec fn half_limit() -> int {
    0x1_0000_0000
}

/// The continent that holds most of each region's nodes, ties to the lower
/// continent, or continent 0 for a region with no node.
pub fn continent_of_region(regions: &Cut, continents: &Cut) -> (out: Vec<u32>)
    requires
        regions.sizes@.len() <= u32::MAX,
        forall|i: int|
            0 <= i < regions.membership@.len() ==> (#[trigger] regions.membership@[i]) < regions.sizes@.len(),
    ensures
        out@.len() == regions.sizes@.len(),
        forall|r: int, c: u32|
            0 <= r < out@.len() ==> #[trigger] votes(regions.membership@, continents.membership@, r as u32, c)
                <= votes(regions.membership@, continents.membership@, r as u32, #[trigger] out@[r]),
        forall|r: int, c: u32|
            0 <= r < out@.len() && #[trigger] votes(regions.membership@, continents.membership@, r as u32, c)
                == votes(regions.membership@, continents.membership@, r as u32, #[trigger] out@[r]) && votes(
                regions.membership@,
                continents.membership@,
                r as u32,
                c,
            ) > 0 ==> out@[r] <= c,
        forall|r: int|
            0 <= r < out@.len() && votes(regions.membership@, continents.membership@, r as u32, #[trigger] out@[r])
                == 0 ==> out@[r] == 0,
{
    let k = regions.sizes.len();
    let rm = &regions.membership;
    let cm = &continents.membership;
    let n = if rm.len() <= cm.len() {
        rm.len()
    } else {
        cm.len()
    };
    let ghost keys = vote_keys(rm@, cm@);
    let mut map: FxHashMap<u64, usize> = FxHashMap::default();
    let mut i: usize = 0;
    while i < n
        invariant
            i <= n,
            n == keys.len(),
            n <= rm@.len(),
            n <= cm@.len(),
            keys == vote_keys(rm@, cm@),
            map@ == tally(keys.take(i as int)),
        decreases n - i,
    {
        let key = Pairs::key(rm[i], cm[i]);
        proof {
            lemma_tally(keys.take(i as int), key);
            lemma_occurrences_le_len(keys.take(i as int), key);
            assert(keys.take(i as int + 1).drop_last() =~= keys.take(i as int));
        }
        let c = match tally_get(&map, key) {
            Some(c) => c,
            None => 0,
        };
        tally_insert(&mut map, key, c + 1);
        i = i + 1;
    }
    assert(keys.take(n as int) =~= keys);
    // every tallied key is a (region, continent) pair of a node
    assert forall|key: u64| #[trigger] map@.contains_key(key) implies key_hi(key) < k && map@[key] > 0
        && map@[key] == occurrences(keys, key) by {
        lemma_tally(keys, key);
        lemma_occurrences_witness(keys, key);
        let i = choose|i: int| 0 <= i < keys.len() && keys[i] == key;
        lemma_key_round_trip(rm@[i], cm@[i]);
    }
    let entries = tally_entries(&map);
    let mut best: Vec<(usize, u32)> = Vec::new();
    let mut r: usize = 0;
    while r < k
        invariant
            r <= k,
            best@.len() == r,
            forall|y: int| 0 <= y < r ==> #[trigger] best@[y] == (0usize, 0u32),
        decreases k - r,
    {
        best.push((0, 0));
        r = r + 1;
    }
    let mut e: usize = 0;
    while e < entries.len()
        invariant
            e <= entries@.len(),
            best@.len() == k,
            forall|x: int|
                0 <= x < entries@.len() ==> map@.contains_key((#[trigger] entries@[x]).0)
                    && map@[entries@[x].0] == entries@[x].1,
            forall|key: u64| #[trigger] map@.contains_key(key) ==> key_hi(key) < k && map@[key] > 0,
            forall|x: int, y: int|
                0 <= x < e && 0 <= y < k && key_hi((#[trigger] entries@[x]).0) == y ==> entries@[x].1
                    <= (#[trigger] best@[y]).0 && (entries@[x].1 == best@[y].0 ==> best@[y].1 <= key_lo(
                    entries@[x].0,
                )),
            forall|y: int| 0 <= y < k && (#[trigger] best@[y]).0 == 0 ==> best@[y].1 == 0,
            forall|y: int|
                0 <= y < k && (#[trigger] best@[y]).0 > 0 ==> map@.contains_key(pair_key(y as u32, best@[y].1) as u64)
                    && map@[pair_key(y as u32, best@[y].1) as u64] == best@[y].0,
        decreases entries@.len() - e,
    {
        let (key, cnt) = entries[e];
        assert(map@.contains_key(entries@[e as int].0));
        let hr = Pairs::hi(key);
        let lc = Pairs::lo(key);
        proof {
            lemma_key_split(key);
        }
        let cur = best[hr as usize];
        if cnt > cur.0 || (cnt == cur.0 && lc < cur.1) {
            best.set(hr as usize, (cnt, lc));
        }
        e = e + 1;
    }
    let mut out: Vec<u32> = Vec::new();
    let mut r: usize = 0;
    while r < k
        invariant
            r <= k,
            best@.len() == k,
            out@.len() == r,
            forall|y: int| 0 <= y < r ==> #[trigger] out@[y] == best@[y].1,
        decreases k - r,
    {
        out.push(best[r].1);
        r = r + 1;
    }
    let ghost rv = rm@;
    let ghost cv = cm@;
    assert forall|y: int, c: u32| 0 <= y < k && #[trigger] votes(rv, cv, y as u32, c) > 0 implies votes(rv, cv, y as u32, c)
        <= best@[y].0 && (votes(rv, cv, y as u32, c) == best@[y].0 ==> best@[y].1 <= c) by {
        let key = pair_key(y as u32, c) as u64;
        lemma_key_round_trip(y as u32, c);
        lemma_tally(keys, key);
        assert(map@.contains_key(key));
        let x = choose|x: int| 0 <= x < entries@.len() && entries@[x].0 == key;
        assert(key_hi(entries@[x].0) == y);
    }
    assert forall|y: int| 0 <= y < k && best@[y].0 > 0 implies votes(rv, cv, y as u32, best@[y].1) == best@[y].0 by {
        let key = pair_key(y as u32, best@[y].1) as u64;
        lemma_tally(keys, key);
    }
    assert forall|r: int, c: u32| 0 <= r < out@.len() implies #[trigger] votes(rv, cv, r as u32, c) <= votes(
        rv,
        cv,
        r as u32,
        #[trigger] out@[r],
    ) by {
        if votes(rv, cv, r as u32, c) > 0 && best@[r].0 == 0 {
            assert(votes(rv, cv, r as u32, c) <= best@[r].0);
        }
    }
    assert forall|r: int, c: u32|
        0 <= r < out@.len() && #[trigger] votes(rv, cv, r as u32, c) == votes(rv, cv, r as u32, #[trigger] out@[r])
            && votes(rv, cv, r as u32, c) > 0 implies out@[r] <= c by {
        if best@[r].0 == 0 {
            assert(votes(rv, cv, r as u32, c) <= best@[r].0);
        }
    }
    assert forall|r: int| 0 <= r < out@.len() && votes(rv, cv, r as u32, #[trigger] out@[r]) == 0 implies out@[r]
        == 0 by {
    }
    out
}

/// The cells fit the limits the basin rules work in: the smoothing rings,
/// the coordinates, and the hexes counted with their discs.
pub open spec fn cut_fits(cells: Seq<(i32, i32)>, rings: int) -> bool {
    &&& rings <= max_rings()
    &&& cells.len() <= max_hexes()
    &&& forall|t: int| 0 <= t < cells.len() ==> within(#[trigger] cells[t], max_coord())
    &&& cells.to_set().len() * disc_bound(rings) <= max_hexes()
}

/// How many nodes lie in each hex.
pub open spec fn cell_tally(cells: Seq<(i32, i32)>, hexes: Seq<(i32, i32)>) -> Seq<u32> {
    Seq::new(hexes.len(), |j: int| occurrences(cells, hexes[j]) as u32)
}

/// One more than the largest label, or zero where there is none.
pub open spec fn label_bound(s: Seq<u32>) -> nat
    decreases s.len(),
{
    if s.len() == 0 {
        0
    } else {
        let rest = label_bound(s.drop_last());
        if s.last() + 1 > rest {
            (s.last() + 1) as nat
        } else {
            rest
        }
    }
}

/// The hexes among the first `i` whose basin is `b`, in order.
pub open spec fn hexes_of(hexes: Seq<(i32, i32)>, basin: Seq<u32>, b: int, i: int) -> Seq<(i32, i32)>
    decreases i,
{
    if i <= 0 {
        Seq::empty()
    } else {
        let rest = hexes_of(hexes, basin, b, i - 1);
        if basin[i - 1] == b {
            rest.push(hexes[i - 1])
        } else {
            rest
        }
    }
}

/// The territories cut from the cells the nodes lie in: the occupied hexes
/// in order, the basin of each, the territory of each node, the node count
/// of each territory and the hexes of each.
pub struct HexCut {
    pub hexes: Vec<(i32, i32)>,
    pub basin: Vec<u32>,
    pub membership: Vec<u32>,
    pub sizes: Vec<usize>,
    pub by_basin: Vec<Vec<(i32, i32)>>,
}

/// The hexes the cells cover, each once, in order; `None` where there are
/// too many cells or one lies too far out.
fn cell_hexes(cells: &[(i32, i32)]) -> (r: Option<Vec<(i32, i32)>>)
    ensures
        r is None <==> !(cells@.len() <= max_hexes() && forall|t: int|
            0 <= t < cells@.len() ==> within(#[trigger] cells@[t], max_coord())),
        r matches Some(hexes) ==> {
            &&& strictly_sorted(hexes@)
            &&& forall|h: (i32, i32)| #[trigger] hexes@.contains(h) <==> cells@.contains(h)
            &&& hexes@.len() == cells@.to_set().len()
            &&& hexes@.len() <= max_hexes()
            &&& forall|i: int| 0 <= i < hexes@.len() ==> within(#[trigger] hexes@[i], max_coord())
        },
{
    if cells.len() > 0x1000_0000 {
        return None;
    }
    let mut t: usize = 0;
    while t < cells.len()
        invariant
            t <= cells@.len(),
            forall|u: int| 0 <= u < t ==> within(#[trigger] cells@[u], max_coord()),
        decreases cells@.len() - t,
    {
        let (q, r) = cells[t];
        if q < -0x1eff_ffff || q > 0x1eff_ffff || r < -0x1eff_ffff || r > 0x1eff_ffff {
            assert(!within(cells@[t as int], max_coord()));
            return None;
        }
        t = t + 1;
    }
    assert(disc_bound(0) == 1) by (nonlinear_arith);
    assert(cells@.len() * disc_bound(0) == cells@.len());
    let hexes = hex_set(cells, 0);
    proof {
        reveal(near_occupied);
        assert forall|h: (i32, i32)| #[trigger] hexes@.contains(h) <==> cells@.contains(h) by {
            if hexes@.contains(h) {
                let u = choose|u: int| 0 <= u < cells@.len() && hex_dist(h, cells@[u]) <= 0;
                assert(h == cells@[u]);
            }
            if cells@.contains(h) {
                let u = choose|u: int| 0 <= u < cells@.len() && cells@[u] == h;
                assert(hex_dist(h, cells@[u]) <= 0);
            }
        }
        assert(hexes@.no_duplicates()) by {
            assert forall|i: int, j: int| 0 <= i < hexes@.len() && 0 <= j < hexes@.len() && i != j implies hexes@[i]
                != hexes@[j] by {
                if i < j {
                    assert(hex_lt(hexes@[i], hexes@[j]));
                } else {
                    assert(hex_lt(hexes@[j], hexes@[i]));
                }
            }
        }
        hexes@.unique_seq_to_set();
        assert(hexes@.to_set() =~= cells@.to_set());
        assert forall|i: int| 0 <= i < hexes@.len() implies within(#[trigger] hexes@[i], max_coord()) by {
            assert(hexes@.contains(hexes@[i]));
            let u = choose|u: int| 0 <= u < cells@.len() && cells@[u] == hexes@[i];
        }
    }
    Some(hexes)
}

/// How many cells lie in each hex.
fn tally_cells(
    cells: &[(i32, i32)],
    hexes: &Vec<(i32, i32)>,
    index: &FxHashMap<(i32, i32), usize>,
) -> (counts: Vec<u32>)
    requires
        cells@.len() <= max_hexes(),
        strictly_sorted(hexes@),
        indexes(index@, hexes@),
        forall|h: (i32, i32)| #[trigger] hexes@.contains(h) <==> cells@.contains(h),
    ensures
        counts@ == cell_tally(cells@, hexes@),
        forall|x: int| 0 <= x < hexes@.len() ==> #[trigger] counts@[x] > 0,
{
    let n = hexes.len();
    let mut counts: Vec<u32> = Vec::new();
    let mut j: usize = 0;
    while j < n
        invariant
            j <= n == hexes@.len(),
            counts@.len() == j,
            forall|x: int| 0 <= x < j ==> #[trigger] counts@[x] == 0,
        decreases n - j,
    {
        counts.push(0);
        j = j + 1;
    }
    let mut t: usize = 0;
    while t < cells.len()
        invariant
            t <= cells@.len(),
            cells@.len() <= max_hexes(),
            n == hexes@.len(),
            strictly_sorted(hexes@),
            indexes(index@, hexes@),
            forall|h: (i32, i32)| #[trigger] hexes@.contains(h) <==> cells@.contains(h),
            counts@.len() == n,
            forall|x: int| 0 <= x < n ==> #[trigger] counts@[x] == occurrences(cells@.take(t as int), hexes@[x]),
            forall|x: int| 0 <= x < n ==> #[trigger] counts@[x] <= t,
        decreases cells@.len() - t,
    {
        let c = cells[t];
        assert(cells@.contains(c));
        proof {
            lemma_slot(index@, hexes@, c);
        }
        match hex_map_get(index, c) {
            Some(x) => {
                counts.set(x, counts[x] + 1);
            },
            None => {
                assert(false);
            },
        }
        proof {
            assert forall|x: int| 0 <= x < n implies #[trigger] counts@[x] == occurrences(
                cells@.take(t + 1),
                hexes@[x],
            ) by {
                lemma_occurrences_step(cells@, t as int, hexes@[x]);
                if hexes@[x] == c {
                    lemma_slot(index@, hexes@, c);
                }
            }
        }
        t = t + 1;
    }
    assert(cells@.take(cells@.len() as int) =~= cells@);
    proof {
        assert forall|x: int| 0 <= x < n implies #[trigger] counts@[x] > 0 by {
            assert(hexes@.contains(hexes@[x]));
            assert(cells@.contains(hexes@[x]));
            let u = choose|u: int| 0 <= u < cells@.len() && cells@[u] == hexes@[x];
            lemma_occurrences_positive(cells@, u);
        }
        assert(counts@ =~= cell_tally(cells@, hexes@));
    }
    counts
}

/// One past the largest label.
fn label_count(labels: &Vec<u32>) -> (k: u32)
    requires
        forall|x: int| 0 <= x < labels@.len() ==> #[trigger] labels@[x] != u32::MAX,
    ensures
        k == label_bound(labels@),
        forall|x: int| 0 <= x < labels@.len() ==> #[trigger] labels@[x] < k,
{
    let n = labels.len();
    let mut k: u32 = 0;
    let mut i: usize = 0;
    while i < n
        invariant
            i <= n == labels@.len(),
            forall|x: int| 0 <= x < n ==> #[trigger] labels@[x] != u32::MAX,
            k == label_bound(labels@.take(i as int)),
            forall|x: int| 0 <= x < i ==> #[trigger] labels@[x] < k,
        decreases n - i,
    {
        assert(labels@.take(i + 1).drop_last() =~= labels@.take(i as int));
        if labels[i] + 1 > k {
            k = labels[i] + 1;
        }
        i = i + 1;
    }
    assert(labels@.take(n as int) =~= labels@);
    k
}

/// The basin of the hex each cell lies in.
fn cell_basins(
    cells: &[(i32, i32)],
    hexes: &Vec<(i32, i32)>,
    index: &FxHashMap<(i32, i32), usize>,
    basin: &Vec<u32>,
    k: u32,
) -> (membership: Vec<u32>)
    requires
        strictly_sorted(hexes@),
        indexes(index@, hexes@),
        basin@.len() == hexes@.len(),
        forall|h: (i32, i32)| #[trigger] hexes@.contains(h) <==> cells@.contains(h),
        forall|x: int| 0 <= x < basin@.len() ==> #[trigger] basin@[x] < k,
    ensures
        membership@.len() == cells@.len(),
        forall|u: int| 0 <= u < cells@.len() ==> #[trigger] membership@[u] == basin@[slot(hexes@, cells@[u])->0],
        forall|u: int| 0 <= u < cells@.len() ==> #[trigger] membership@[u] < k,
{
    let mut membership: Vec<u32> = Vec::new();
    let mut t: usize = 0;
    while t < cells.len()
        invariant
            t <= cells@.len(),
            strictly_sorted(hexes@),
            indexes(index@, hexes@),
            basin@.len() == hexes@.len(),
            forall|h: (i32, i32)| #[trigger] hexes@.contains(h) <==> cells@.contains(h),
            forall|x: int| 0 <= x < basin@.len() ==> #[trigger] basin@[x] < k,
            membership@.len() == t,
            forall|u: int| 0 <= u < t ==> #[trigger] membership@[u] == basin@[slot(hexes@, cells@[u])->0],
            forall|u: int| 0 <= u < t ==> #[trigger] membership@[u] < k,
        decreases cells@.len() - t,
    {
        let c = cells[t];
        assert(cells@.contains(c));
        proof {
            lemma_slot(index@, hexes@, c);
        }
        match hex_map_get(index, c) {
            Some(x) => {
                membership.push(basin[x]);
            },
            None => {
                assert(false);
            },
        }
        t = t + 1;
    }
    membership
}

/// How many entries of `membership` hold each of the labels below `k`.
fn label_sizes(membership: &Vec<u32>, k: u32) -> (sizes: Vec<usize>)
    requires
        forall|u: int| 0 <= u < membership@.len() ==> #[trigger] membership@[u] < k,
    ensures
        sizes@.len() == k,
        forall|b: int| 0 <= b < k ==> #[trigger] sizes@[b] == occurrences(membership@, b as u32),
{
    let mut sizes: Vec<usize> = Vec::new();
    let mut b: u32 = 0;
    while b < k
        invariant
            b <= k,
            sizes@.len() == b,
            forall|x: int| 0 <= x < b ==> #[trigger] sizes@[x] == 0,
        decreases k - b,
    {
        sizes.push(0);
        b = b + 1;
    }
    let mut t: usize = 0;
    while t < membership.len()
        invariant
            t <= membership@.len(),
            sizes@.len() == k,
            forall|u: int| 0 <= u < membership@.len() ==> #[trigger] membership@[u] < k,
            forall|x: int| 0 <= x < k ==> #[trigger] sizes@[x] == occurrences(membership@.take(t as int), x as u32),
            forall|x: int| 0 <= x < k ==> #[trigger] sizes@[x] <= t,
        decreases membership@.len() - t,
    {
        let m = membership[t] as usize;
        sizes.set(m, sizes[m] + 1);
        proof {
            assert forall|x: int| 0 <= x < k implies #[trigger] sizes@[x] == occurrences(
                membership@.take(t + 1),
                x as u32,
            ) by {
                lemma_occurrences_step(membership@, t as int, x as u32);
            }
        }
        t = t + 1;
    }
    assert(membership@.take(membership@.len() as int) =~= membership@);
    sizes
}

/// The hexes of each basin below `k`, in order.
fn hexes_by_basin(hexes: &Vec<(i32, i32)>, basin: &Vec<u32>, k: u32) -> (by_basin: Vec<Vec<(i32, i32)>>)
    requires
        basin@.len() == hexes@.len(),
        forall|x: int| 0 <= x < basin@.len() ==> #[trigger] basin@[x] < k,
    ensures
        by_basin@.len() == k,
        forall|b: int|
            0 <= b < k ==> #[trigger] by_basin@[b]@ == hexes_of(hexes@, basin@, b, hexes@.len() as int),
{
    let n = hexes.len();
    let mut by_basin: Vec<Vec<(i32, i32)>> = Vec::new();
    let mut b: u32 = 0;
    while b < k
        invariant
            b <= k,
            by_basin@.len() == b,
            forall|x: int| 0 <= x < b ==> (#[trigger] by_basin@[x])@ == Seq::<(i32, i32)>::empty(),
        decreases k - b,
    {
        by_basin.push(Vec::new());
        b = b + 1;
    }
    let mut i: usize = 0;
    while i < n
        invariant
            i <= n == hexes@.len() == basin@.len(),
            by_basin@.len() == k,
            forall|x: int| 0 <= x < n ==> #[trigger] basin@[x] < k,
            forall|x: int| 0 <= x < k ==> (#[trigger] by_basin@[x])@ == hexes_of(hexes@, basin@, x, i as int),
        decreases n - i,
    {
        let g = basin[i] as usize;
        by_basin[g].push(hexes[i]);
        i = i + 1;
        assert forall|x: int| 0 <= x < k implies (#[trigger] by_basin@[x])@ == hexes_of(
            hexes@,
            basin@,
            x,
            i as int,
        ) by {}
    }
    by_basin
}

/// The cell counts of the basins of a cut are those the ranking compares, so
/// they are positive and fall with the basin's number.
proof fn lemma_cut_sizes_rank(
    cells: Seq<(i32, i32)>,
    hexes: Seq<(i32, i32)>,
    counts: Seq<u32>,
    basin: Seq<u32>,
    membership: Seq<u32>,
    sizes: Seq<usize>,
    k: int,
)
    requires
        strictly_sorted(hexes),
        forall|h: (i32, i32)| #[trigger] hexes.contains(h) <==> cells.contains(h),
        cells.len() <= max_hexes(),
        counts == cell_tally(cells, hexes),
        basin.len() == hexes.len(),
        forall|t: int, l: int|
            0 <= t < basin.len() && #[trigger] basin[t] != u32::MAX && 0 <= l < basin[t] ==> #[trigger] used(
                basin,
                l,
            ),
        hexes.no_duplicates() ==> forall|l: int, m: int|
            0 <= l < m < u32::MAX && used(basin, m) ==> #[trigger] label_nodes(
                basin,
                counts,
                l,
                basin.len() as int,
            ) >= #[trigger] label_nodes(basin, counts, m, basin.len() as int),
        k == label_bound(basin),
        k <= u32::MAX,
        forall|x: int| 0 <= x < basin.len() ==> #[trigger] basin[x] < k,
        membership.len() == cells.len(),
        forall|u: int| 0 <= u < cells.len() ==> #[trigger] membership[u] == basin[slot(hexes, cells[u])->0],
        sizes.len() == k,
        forall|b: int| 0 <= b < k ==> #[trigger] sizes[b] == occurrences(membership, b as u32),
    ensures
        forall|b: int| 0 <= b < sizes.len() ==> #[trigger] sizes[b] >= 1,
        forall|l: int, m: int| 0 <= l < m < sizes.len() ==> #[trigger] sizes[l] >= #[trigger] sizes[m],
{
    let n = hexes.len() as int;
    assert(hexes.no_duplicates()) by {
        assert forall|i: int, j: int| 0 <= i < hexes.len() && 0 <= j < hexes.len() && i != j implies hexes[i]
            != hexes[j] by {
            if i < j {
                assert(hex_lt(hexes[i], hexes[j]));
            } else {
                assert(hex_lt(hexes[j], hexes[i]));
            }
        }
    }
    assert(membership =~= cell_basin_seq(basin, hexes, cells));
    assert forall|t: int| 0 <= t < cells.len() implies hexes.contains(#[trigger] cells[t]) by {
        assert(cells.contains(cells[t]));
    }
    assert forall|b: int| 0 <= b < k implies #[trigger] used(basin, b) by {
        lemma_label_below_bound(basin, b);
        let t = choose|t: int| 0 <= t < basin.len() && basin[t] >= b;
        if basin[t] != b {
            assert(basin[t] != u32::MAX);
            assert(used(basin, b));
        }
    }
    assert forall|b: int| 0 <= b < k implies #[trigger] sizes[b] as int == label_nodes(basin, counts, b, n) by {
        lemma_sizes_count_cells(basin, hexes, cells, b as u32);
        lemma_tally_counts_cells(basin, hexes, cells, b as u32, n);
    }
    assert forall|b: int| 0 <= b < sizes.len() implies #[trigger] sizes[b] >= 1 by {
        assert(used(basin, b));
        let j = choose|j: int| 0 <= j < basin.len() && basin[j] == b;
        assert(hexes.contains(hexes[j]));
        assert(cells.contains(hexes[j]));
        let u = choose|u: int| 0 <= u < cells.len() && cells[u] == hexes[j];
        let q = slot(hexes, cells[u])->0;
        assert(hexes[q] == hexes[j]);
        assert(q == j);
        assert(membership[u] == b as u32);
        lemma_occurrences_positive(membership, u);
    }
    assert forall|l: int, m: int| 0 <= l < m < sizes.len() implies #[trigger] sizes[l] >= #[trigger] sizes[m] by {
        assert(used(basin, m));
        assert(sizes[l] as int == label_nodes(basin, counts, l, n));
        assert(sizes[m] as int == label_nodes(basin, counts, m, n));
    }
}

/// The cells that lie in hexes of basin `b`, over the first `t` hexes.
pub open spec fn cells_in_basin(basin: Seq<u32>, hexes: Seq<(i32, i32)>, cells: Seq<(i32, i32)>, b: u32, t: int) -> int
    decreases t,
{
    if t <= 0 {
        0
    } else {
        cells_in_basin(basin, hexes, cells, b, t - 1) + if basin[t - 1] == b {
            occurrences(cells, hexes[t - 1]) as int
        } else {
            0
        }
    }
}

/// The basin of the hex of each cell.
pub open spec fn cell_basin_seq(basin: Seq<u32>, hexes: Seq<(i32, i32)>, cells: Seq<(i32, i32)>) -> Seq<u32> {
    Seq::new(cells.len(), |t: int| basin[slot(hexes, cells[t])->0])
}

proof fn lemma_cell_occurrences_le(s: Seq<(i32, i32)>, c: (i32, i32))
    ensures
        occurrences(s, c) <= s.len(),
    decreases s.len(),
{
    if s.len() > 0 {
        lemma_cell_occurrences_le(s.drop_last(), c);
    }
}

proof fn lemma_tally_counts_cells(basin: Seq<u32>, hexes: Seq<(i32, i32)>, cells: Seq<(i32, i32)>, b: u32, t: int)
    requires
        0 <= t <= hexes.len(),
        cells.len() <= u32::MAX,
    ensures
        label_nodes(basin, cell_tally(cells, hexes), b as int, t) == cells_in_basin(basin, hexes, cells, b, t),
    decreases t,
{
    if t > 0 {
        lemma_tally_counts_cells(basin, hexes, cells, b, t - 1);
        lemma_cell_occurrences_le(cells, hexes[t - 1]);
    }
}

proof fn lemma_basin_cells_step(basin: Seq<u32>, hexes: Seq<(i32, i32)>, cells: Seq<(i32, i32)>, b: u32, t: int)
    requires
        cells.len() > 0,
        hexes.no_duplicates(),
        hexes.contains(cells.last()),
        0 <= t <= hexes.len(),
    ensures
        cells_in_basin(basin, hexes, cells, b, t) == cells_in_basin(basin, hexes, cells.drop_last(), b, t) + if slot(
            hexes,
            cells.last(),
        )->0 < t && basin[slot(hexes, cells.last())->0] == b {
            1int
        } else {
            0int
        },
    decreases t,
{
    if t > 0 {
        lemma_basin_cells_step(basin, hexes, cells, b, t - 1);
        let s = slot(hexes, cells.last())->0;
        assert(hexes[s] == cells.last());
        if t - 1 != s {
            assert(hexes[t - 1] != cells.last());
        }
    }
}

proof fn lemma_sizes_count_cells(basin: Seq<u32>, hexes: Seq<(i32, i32)>, cells: Seq<(i32, i32)>, b: u32)
    requires
        hexes.no_duplicates(),
        forall|t: int| 0 <= t < cells.len() ==> hexes.contains(#[trigger] cells[t]),
    ensures
        occurrences(cell_basin_seq(basin, hexes, cells), b) == cells_in_basin(basin, hexes, cells, b, hexes.len() as int),
    decreases cells.len(),
{
    if cells.len() == 0 {
        assert(hexes.len() >= 0);
        lemma_basin_cells_empty(basin, hexes, cells, b, hexes.len() as int);
    } else {
        let rest = cells.drop_last();
        assert forall|t: int| 0 <= t < rest.len() implies hexes.contains(#[trigger] rest[t]) by {
            assert(rest[t] == cells[t]);
        }
        lemma_sizes_count_cells(basin, hexes, rest, b);
        assert(hexes.contains(cells[cells.len() - 1]));
        lemma_basin_cells_step(basin, hexes, cells, b, hexes.len() as int);
        let m = cell_basin_seq(basin, hexes, cells);
        assert(m.drop_last() =~= cell_basin_seq(basin, hexes, rest));
        assert(m.last() == basin[slot(hexes, cells.last())->0]);
    }
}

proof fn lemma_basin_cells_empty(basin: Seq<u32>, hexes: Seq<(i32, i32)>, cells: Seq<(i32, i32)>, b: u32, t: int)
    requires
        cells.len() == 0,
    ensures
        cells_in_basin(basin, hexes, cells, b, t) == 0,
    decreases t,
{
    if t > 0 {
        lemma_basin_cells_empty(basin, hexes, cells, b, t - 1);
    }
}

proof fn lemma_label_below_bound(s: Seq<u32>, b: int)
    requires
        0 <= b < label_bound(s),
    ensures
        exists|t: int| 0 <= t < s.len() && s[t] >= b,
    decreases s.len(),
{
    let rest = s.drop_last();
    if b < label_bound(rest) {
        lemma_label_below_bound(rest, b);
        let t = choose|t: int| 0 <= t < rest.len() && rest[t] >= b;
        assert(s[t] == rest[t]);
    } else {
        assert(s[s.len() - 1] >= b);
    }
}

/// Cuts the nodes into territories from the hex cell each lies in: the
/// occupied hexes split into density basins over `rings` rings with basins
/// under `min_nodes` nodes folded away, and each node takes its hex's basin.
/// `None` where the cells exceed the limits the basin rules work in.
#[verifier::spinoff_prover]
#[verifier::rlimit(40)]
pub fn cut_cells(cells: &[(i32, i32)], rings: usize, min_nodes: usize) -> (r: Option<HexCut>)
    ensures
        r is None <==> !cut_fits(cells@, rings as int),
        (r matches Some(c) ==> {
            &&& strictly_sorted(c.hexes@)
            &&& forall|h: (i32, i32)| #[trigger] c.hexes@.contains(h) <==> cells@.contains(h)
            &&& basin_trace(c.hexes@, cell_tally(cells@, c.hexes@), rings as int, min_nodes as int, c.basin@)
            &&& c.membership@.len() == cells@.len()
            &&& forall|t: int|
                0 <= t < cells@.len() ==> #[trigger] c.membership@[t] == c.basin@[slot(c.hexes@, cells@[t])->0]
            &&& c.sizes@.len() == label_bound(c.basin@)
            &&& forall|b: int| 0 <= b < c.sizes@.len() ==> #[trigger] c.sizes@[b] == occurrences(c.membership@, b as u32)
            &&& forall|b: int| 0 <= b < c.sizes@.len() ==> #[trigger] c.sizes@[b] >= 1
            &&& forall|l: int, k: int|
                0 <= l < k < c.sizes@.len() ==> #[trigger] c.sizes@[l] >= #[trigger] c.sizes@[k]
            &&& c.by_basin@.len() == c.sizes@.len()
            &&& forall|b: int|
                0 <= b < c.by_basin@.len() ==> #[trigger] c.by_basin@[b]@ == hexes_of(
                    c.hexes@,
                    c.basin@,
                    b,
                    c.hexes@.len() as int,
                )
        }),
{
    if rings > 0x0100_0000 {
        return None;
    }
    let hexes = match cell_hexes(cells) {
        Some(h) => h,
        None => {
            return None;
        },
    };
    let n = hexes.len();
    let side: u128 = 2 * rings as u128 + 1;
    assert(side * side <= 0x8_0000_0000_0000) by (nonlinear_arith)
        requires
            side <= 0x0200_0001,
    ;
    let area: u128 = side * side;
    assert((n as u128) * area <= 0x8000_0000_0000_0000_0000) by (nonlinear_arith)
        requires
            n <= 0x1000_0000,
            area <= 0x8_0000_0000_0000,
    ;
    assert(area == disc_bound(rings as int));
    if (n as u128) * area > 0x1000_0000 {
        return None;
    }
    let index = index_hexes(&hexes);
    let counts = tally_cells(cells, &hexes, &index);
    let basin = basins(&hexes, &counts, rings, min_nodes);
    assert forall|x: int| 0 <= x < n implies #[trigger] basin@[x] != u32::MAX by {
        assert(counts@[x] > 0);
    }
    let k = label_count(&basin);
    let membership = cell_basins(cells, &hexes, &index, &basin, k);
    let sizes = label_sizes(&membership, k);
    let by_basin = hexes_by_basin(&hexes, &basin, k);
    proof {
        lemma_cut_sizes_rank(cells@, hexes@, counts@, basin@, membership@, sizes@, k as int);
    }
    Some(HexCut { hexes, basin, membership, sizes, by_basin })
}

} // verus!
