use rustc_hash::{FxHashMap, FxHashSet};
use vstd::prelude::*;

verus! {

/// The hasher builder of rustc_hash's `FxHashMap`, carried through opaquely.
#[verifier::external_type_specification]
#[verifier::external_body]
pub struct ExFxBuildHasher(rustc_hash::FxBuildHasher);

/// Calls `HashMap::insert` on an `FxHashMap` (rustc_hash) keyed by hex
/// coordinates. The contract claims what std documents: afterwards the map sends
/// `k` to `v` and every other key where it was. FxHasher is deterministic and
/// the hash of a pair of integers agrees with its equality.
#[verifier::external_body]
pub(crate) fn hex_map_insert(m: &mut FxHashMap<(i32, i32), usize>, k: (i32, i32), v: usize)
    ensures
        final(m)@ == old(m)@.insert(k, v),
{
    m.insert(k, v);
}

/// Calls `HashMap::get` on an `FxHashMap` keyed by hex coordinates and copies
/// the value out. The contract claims what std documents: the value stored
/// under `k`, or nothing when the key is absent.
#[verifier::external_body]
pub(crate) fn hex_map_get(m: &FxHashMap<(i32, i32), usize>, k: (i32, i32)) -> (r: Option<usize>)
    ensures
        r == (if m@.contains_key(k) {
            Some(m@[k])
        } else {
            None
        }),
{
    m.get(&k).copied()
}

/// Calls `HashMap::insert` on an `FxHashMap` keyed by `u64`. The contract claims
/// what std documents: afterwards the map sends `k` to `v` and every other key
/// where it was.
#[verifier::external_body]
pub(crate) fn tally_insert(m: &mut FxHashMap<u64, usize>, k: u64, v: usize)
    ensures
        final(m)@ == old(m)@.insert(k, v),
{
    m.insert(k, v);
}

/// Calls `HashMap::get` on an `FxHashMap` keyed by `u64` and copies the value
/// out. The contract claims what std documents: the value stored under `k`, or
/// nothing when the key is absent.
#[verifier::external_body]
pub(crate) fn tally_get(m: &FxHashMap<u64, usize>, k: u64) -> (r: Option<usize>)
    ensures
        r == (if m@.contains_key(k) {
            Some(m@[k])
        } else {
            None
        }),
{
    m.get(&k).copied()
}

/// Calls `HashMap::iter` on an `FxHashMap` keyed by `u64` and copies each
/// entry out. The contract claims only what holds in every walk order: each
/// key once, with its value, and nothing else.
#[verifier::external_body]
pub(crate) fn tally_entries(m: &FxHashMap<u64, usize>) -> (r: Vec<(u64, usize)>)
    ensures
        r@.len() == m@.dom().len(),
        forall|i: int, j: int| 0 <= i < j < r@.len() ==> (#[trigger] r@[i]).0 != (#[trigger] r@[j]).0,
        forall|i: int|
            0 <= i < r@.len() ==> m@.contains_key((#[trigger] r@[i]).0) && m@[r@[i].0] == r@[i].1,
        forall|k: u64| #[trigger] m@.contains_key(k) ==> exists|i: int| 0 <= i < r@.len() && r@[i].0 == k,
{
    m.iter().map(|(&k, &v)| (k, v)).collect()
}

/// Calls `FxHashSet::default` (rustc_hash) for a set of node numbers. The
/// contract claims what std documents for a new set: it holds nothing.
#[verifier::external_body]
pub(crate) fn seen_new() -> (fresh: FxHashSet<u32>)
    ensures
        fresh@ == Set::<u32>::empty(),
{
    FxHashSet::default()
}

/// Calls `HashSet::insert` on an `FxHashSet` of node numbers. The contract
/// claims what std documents: afterwards the set holds `v` and all it held,
/// and the call answers whether `v` was new to it.
#[verifier::external_body]
pub(crate) fn seen_insert(s: &mut FxHashSet<u32>, v: u32) -> (fresh: bool)
    ensures
        final(s)@ == old(s)@.insert(v),
        fresh == !old(s)@.contains(v),
{
    s.insert(v)
}

/// What an `FxHashMap` from tag names to positions holds, each name taken by
/// its characters.
pub uninterp spec fn name_index(m: FxHashMap<String, u32>) -> Map<Seq<char>, u32>;

/// Calls `FxHashMap::default` (rustc_hash) for a map from names to positions.
/// The contract claims what std documents for a new map: it holds nothing.
#[verifier::external_body]
pub(crate) fn name_index_new() -> (fresh: FxHashMap<String, u32>)
    ensures
        name_index(fresh) =~= Map::empty(),
{
    FxHashMap::default()
}

/// Calls `HashMap::insert` on an `FxHashMap` from names to positions. The
/// contract claims what std documents: afterwards the map sends `name` to `v`
/// and every other name where it was. Two `String`s are equal exactly when
/// their characters are.
#[verifier::external_body]
pub(crate) fn name_index_insert(m: &mut FxHashMap<String, u32>, name: String, v: u32)
    ensures
        name_index(*final(m)) == name_index(*old(m)).insert(name@, v),
{
    m.insert(name, v);
}

/// Calls `HashMap::get` with a `&str` on an `FxHashMap` from names to
/// positions and copies the value out. The contract claims what std documents:
/// the value stored under the name with these characters, or nothing. std
/// guarantees that a `str` hashes and compares as the `String` it borrows from.
#[verifier::external_body]
pub(crate) fn name_index_get(m: &FxHashMap<String, u32>, name: &str) -> (r: Option<u32>)
    ensures
        r == (if name_index(*m).contains_key(name@) {
            Some(name_index(*m)[name@])
        } else {
            None
        }),
{
    m.get(name).copied()
}

/// What an `FxHashMap` from days to row counts holds, each day taken by its
/// characters.
pub uninterp spec fn day_tally(m: FxHashMap<String, usize>) -> Map<Seq<char>, usize>;

/// Calls `FxHashMap::default` (rustc_hash) for a map from days to counts. The
/// contract claims what std documents for a new map: it holds nothing.
#[verifier::external_body]
pub(crate) fn day_tally_new() -> (fresh: FxHashMap<String, usize>)
    ensures
        day_tally(fresh) =~= Map::empty(),
{
    FxHashMap::default()
}

/// Calls `HashMap::insert` on an `FxHashMap` from days to counts. The contract
/// claims what std documents: afterwards the map sends `day` to `v` and every
/// other day where it was. Two `String`s are equal exactly when their
/// characters are.
#[verifier::external_body]
pub(crate) fn day_tally_insert(m: &mut FxHashMap<String, usize>, day: String, v: usize)
    ensures
        day_tally(*final(m)) == day_tally(*old(m)).insert(day@, v),
{
    m.insert(day, v);
}

/// Calls `HashMap::get` with a `&str` on an `FxHashMap` from days to counts and
/// copies the value out. The contract claims what std documents: the count
/// stored under the day with these characters, or nothing.
#[verifier::external_body]
pub(crate) fn day_tally_get(m: &FxHashMap<String, usize>, day: &str) -> (r: Option<usize>)
    ensures
        r == (if day_tally(*m).contains_key(day@) {
            Some(day_tally(*m)[day@])
        } else {
            None
        }),
{
    m.get(day).copied()
}

/// What an `FxHashMap` from operations (kind and two tags) to the day and
/// number of a request holds, each text taken by its characters.
pub uninterp spec fn op_days(
    m: FxHashMap<(String, String, String), (String, u32)>,
) -> Map<(Seq<char>, Seq<char>, Seq<char>), (Seq<char>, u32)>;

/// Calls `FxHashMap::default` (rustc_hash) for a map from operations to
/// requests. The contract claims what std documents for a new map: it holds
/// nothing.
#[verifier::external_body]
pub(crate) fn op_days_new() -> (fresh: FxHashMap<(String, String, String), (String, u32)>)
    ensures
        op_days(fresh) =~= Map::empty(),
{
    FxHashMap::default()
}

/// Calls `HashMap::insert` on an `FxHashMap` from operations to requests. The
/// contract claims what std documents: afterwards the map sends the operation
/// to the request and every other operation where it was. Tuples of `String`s
/// are equal exactly when their characters are, field by field.
#[verifier::external_body]
pub(crate) fn op_days_insert(
    m: &mut FxHashMap<(String, String, String), (String, u32)>,
    op: (String, String, String),
    request: (String, u32),
)
    ensures
        op_days(*final(m)) == op_days(*old(m)).insert((op.0@, op.1@, op.2@), (request.0@, request.1)),
{
    m.insert(op, request);
}

/// Calls `HashMap::get` on an `FxHashMap` from operations to requests and
/// copies the entry out. The contract claims what std documents: the request
/// stored under the operation with these characters, or nothing.
#[verifier::external_body]
pub(crate) fn op_days_get(
    m: &FxHashMap<(String, String, String), (String, u32)>,
    op: &(String, String, String),
) -> (r: Option<(String, u32)>)
    ensures
        match r {
            Some(v) => op_days(*m).contains_key((op.0@, op.1@, op.2@)) && op_days(*m)[(op.0@, op.1@, op.2@)]
                == (v.0@, v.1),
            None => !op_days(*m).contains_key((op.0@, op.1@, op.2@)),
        },
{
    m.get(op).cloned()
}

} // verus!
