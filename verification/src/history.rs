//! Dating the changes in a tag's history: which day an implication is put on,
//! and which days look like migrations rather than real changes.

use rustc_hash::FxHashMap;
use vstd::prelude::*;

use crate::fxmap::{
    day_tally, day_tally_get, day_tally_insert, day_tally_new, op_days, op_days_get, op_days_insert,
    op_days_new,
};
use crate::posts::YEAR0;
use crate::tags::{last_position, name_views, Tags};
use crate::text::{
    chars_of, date_part, day_slot_of, days_since_2007, has_date_part, push_char, Bur, Event,
    NodeImplication,
};
use crate::text::civil_days_since;
use vstd::string::StringSliceAdditionalSpecFns;
use vstd::utf8::{decode_utf8, encode_utf8, is_char_boundary};

verus! {

/// The character of decimal digit `d`.
pub open spec fn digit_char(d: nat) -> char {
    (d + 48) as char
}

/// The decimal digits of `n`, most significant first, as `{}` formats it.
pub open spec fn decimal_of(n: nat) -> Seq<char>
    decreases n,
{
    if n < 10 {
        seq![digit_char(n)]
    } else {
        decimal_of(n / 10).push(digit_char(n % 10))
    }
}

fn digit(d: u32) -> (c: char)
    requires
        d < 10,
    ensures
        c == digit_char(d as nat),
{
    let b: u8 = 48u8 + d as u8;
    b as char
}

/// Appends the decimal digits of `n` to `s`.
pub fn push_decimal(s: &mut String, n: u32)
    ensures
        final(s)@ == old(s)@ + decimal_of(n as nat),
    decreases n,
{
    if n >= 10 {
        push_decimal(s, n / 10);
    }
    let ghost mid = s@;
    push_char(s, digit(n % 10));
    assert(s@ =~= old(s)@ + decimal_of(n as nat)) by {
        if n >= 10 {
            assert(mid == old(s)@ + decimal_of((n / 10) as nat));
        } else {
            assert(mid == old(s)@);
        }
    }
}

/// How many of the first `i` days are `d`.
pub open spec fn day_count(days: Seq<String>, d: Seq<char>, i: int) -> nat
    decreases i,
{
    if i <= 0 {
        0
    } else {
        day_count(days, d, i - 1) + if days[i - 1]@ == d {
            1nat
        } else {
            0nat
        }
    }
}

proof fn lemma_day_count_bound(days: Seq<String>, d: Seq<char>, i: int)
    requires
        0 <= i,
    ensures
        day_count(days, d, i) <= i,
    decreases i,
{
    if i > 0 {
        lemma_day_count_bound(days, d, i - 1);
    }
}

proof fn lemma_day_count_holds(days: Seq<String>, j: int, i: int)
    requires
        0 <= j < i,
    ensures
        day_count(days, days[j]@, i) > 0,
    decreases i,
{
    if j < i - 1 {
        lemma_day_count_holds(days, j, i - 1);
    }
}

/// Whether each row's day is a lump: a day, not empty, that more than
/// `threshold` of the rows carry, as a migration that stamped its own date on
/// old rows would.
pub fn lump_days(days: &[String], threshold: usize) -> (lump: Vec<bool>)
    ensures
        lump@.len() == days@.len(),
        forall|i: int|
            0 <= i < days@.len() ==> #[trigger] lump@[i] == (days@[i]@.len() > 0 && day_count(
                days@,
                days@[i]@,
                days@.len() as int,
            ) > threshold),
{
    let mut tally: FxHashMap<String, usize> = day_tally_new();
    let mut i: usize = 0;
    while i < days.len()
        invariant
            i <= days@.len(),
            forall|d: Seq<char>|
                #[trigger] day_tally(tally).contains_key(d) ==> d.len() > 0 && day_tally(tally)[d]
                    == day_count(days@, d, i as int),
            forall|d: Seq<char>|
                d.len() > 0 && #[trigger] day_count(days@, d, i as int) > 0 ==> day_tally(
                    tally,
                ).contains_key(d),
        decreases days@.len() - i,
    {
        let d: &String = &days[i];
        if !d.as_str().is_empty() {
            let c = match day_tally_get(&tally, d.as_str()) {
                Some(c) => c,
                None => 0,
            };
            proof {
                lemma_day_count_bound(days@, d@, i as int);
            }
            let ghost before = day_tally(tally);
            day_tally_insert(&mut tally, d.clone(), c + 1);
            assert forall|x: Seq<char>| #[trigger]
                day_tally(tally).contains_key(x) implies x.len() > 0 && day_tally(tally)[x] == day_count(
                days@,
                x,
                i + 1,
            ) by {
                if x != d@ {
                    assert(before.contains_key(x));
                }
            }
            assert forall|x: Seq<char>|
                x.len() > 0 && #[trigger] day_count(days@, x, i + 1) > 0 implies day_tally(
                tally,
            ).contains_key(x) by {
                if x != d@ {
                    assert(day_count(days@, x, i as int) > 0);
                }
            }
        } else {
            assert forall|x: Seq<char>| #[trigger]
                day_tally(tally).contains_key(x) implies x.len() > 0 && day_tally(tally)[x] == day_count(
                days@,
                x,
                i + 1,
            ) by {
                assert(x != d@);
            }
            assert forall|x: Seq<char>|
                x.len() > 0 && #[trigger] day_count(days@, x, i + 1) > 0 implies day_tally(
                tally,
            ).contains_key(x) by {
                assert(day_count(days@, x, i as int) > 0);
            }
        }
        i = i + 1;
    }
    let mut lump: Vec<bool> = Vec::new();
    let mut j: usize = 0;
    while j < days.len()
        invariant
            j <= days@.len(),
            lump@.len() == j,
            forall|d: Seq<char>|
                #[trigger] day_tally(tally).contains_key(d) ==> day_tally(tally)[d] == day_count(
                    days@,
                    d,
                    days@.len() as int,
                ),
            forall|d: Seq<char>|
                d.len() > 0 && #[trigger] day_count(days@, d, days@.len() as int) > 0 ==> day_tally(
                    tally,
                ).contains_key(d),
            forall|k: int|
                0 <= k < j ==> #[trigger] lump@[k] == (days@[k]@.len() > 0 && day_count(
                    days@,
                    days@[k]@,
                    days@.len() as int,
                ) > threshold),
        decreases days@.len() - j,
    {
        let d: &String = &days[j];
        let is_lump = if d.as_str().is_empty() {
            false
        } else {
            proof {
                lemma_day_count_holds(days@, j as int, days@.len() as int);
            }
            match day_tally_get(&tally, d.as_str()) {
                Some(c) => c > threshold,
                None => false,
            }
        };
        lump.push(is_lump);
        j = j + 1;
    }
    lump
}

/// The day an implication is put on, whether that day is approximate, and
/// where it came from: the earliest approved request that made it, when there
/// is one; else the day the row was created, approximate on a lump day; else
/// no day at all, which counts as approximate.
pub open spec fn implication_dating(request: Option<(Seq<char>, u32)>, created: Seq<char>, lump: bool) -> (
    Option<Seq<char>>,
    bool,
    Seq<char>,
) {
    match request {
        Some((day, id)) => (Some(day), false, "bur:"@ + decimal_of(id as nat)),
        None => if created.len() > 0 {
            (Some(created), lump, "created_at"@)
        } else {
            (None, true, Seq::empty())
        },
    }
}

/// Dates an implication: `request` is the day and number of the earliest
/// approved request that made it, `created` the day its row was created and
/// `lump` whether that day is a lump day.
pub fn date_implication(request: Option<(String, u32)>, created: String, lump: bool) -> (r: (
    Option<String>,
    bool,
    String,
))
    ensures
        ({
            let want = implication_dating(
                match request {
                    Some(p) => Some((p.0@, p.1)),
                    None => None,
                },
                created@,
                lump,
            );
            &&& r.0.is_some() == want.0.is_some()
            &&& r.0.is_some() ==> r.0.unwrap()@ == want.0.unwrap()
            &&& r.1 == want.1
            &&& r.2@ == want.2
        }),
{
    match request {
        Some((day, id)) => {
            let mut source = "bur:".to_owned();
            push_decimal(&mut source, id);
            (Some(day), false, source)
        },
        None => {
            if !created.as_str().is_empty() {
                (Some(created), lump, "created_at".to_owned())
            } else {
                (None, true, String::new())
            }
        },
    }
}

/// Strict lexicographic order on texts, character by character; UTF-8 keeps
/// the order of code points, so this is the order std gives `str`.
pub open spec fn text_lt(a: Seq<char>, b: Seq<char>) -> bool
    decreases a.len(),
{
    if a.len() == 0 {
        b.len() > 0
    } else if b.len() == 0 {
        false
    } else if a[0] < b[0] {
        true
    } else if a[0] == b[0] {
        text_lt(a.drop_first(), b.drop_first())
    } else {
        false
    }
}

proof fn lemma_text_lt_irreflexive(a: Seq<char>)
    ensures
        !text_lt(a, a),
    decreases a.len(),
{
    if a.len() > 0 {
        lemma_text_lt_irreflexive(a.drop_first());
    }
}

proof fn lemma_text_trichotomy(a: Seq<char>, b: Seq<char>)
    ensures
        text_lt(a, b) || a == b || text_lt(b, a),
    decreases a.len(),
{
    if a.len() > 0 && b.len() > 0 && a[0] == b[0] {
        lemma_text_trichotomy(a.drop_first(), b.drop_first());
        if a.drop_first() == b.drop_first() {
            assert(a =~= b) by {
                assert forall|k: int| 0 <= k < a.len() implies a[k] == b[k] by {
                    if k > 0 {
                        assert(a[k] == a.drop_first()[k - 1]);
                        assert(b[k] == b.drop_first()[k - 1]);
                    }
                }
            }
        }
    } else if a.len() == 0 && b.len() == 0 {
        assert(a =~= b);
    }
}

proof fn lemma_text_lt_transitive(a: Seq<char>, b: Seq<char>, c: Seq<char>)
    requires
        text_lt(a, b),
        text_lt(b, c),
    ensures
        text_lt(a, c),
    decreases a.len(),
{
    if a.len() > 0 && b.len() > 0 && c.len() > 0 && a[0] == b[0] && b[0] == c[0] {
        lemma_text_lt_transitive(a.drop_first(), b.drop_first(), c.drop_first());
    }
}

proof fn lemma_text_lt_skip(a: Seq<char>, b: Seq<char>, i: int)
    requires
        0 <= i <= a.len(),
        i <= b.len(),
        a.take(i) == b.take(i),
    ensures
        text_lt(a, b) == text_lt(a.skip(i), b.skip(i)),
    decreases i,
{
    if i > 0 {
        assert(a[0] == a.take(i)[0]);
        assert(b[0] == b.take(i)[0]);
        assert(a.drop_first().take(i - 1) =~= a.take(i).drop_first());
        assert(b.drop_first().take(i - 1) =~= b.take(i).drop_first());
        lemma_text_lt_skip(a.drop_first(), b.drop_first(), i - 1);
        assert(a.drop_first().skip(i - 1) =~= a.skip(i));
        assert(b.drop_first().skip(i - 1) =~= b.skip(i));
    } else {
        assert(a.skip(0) =~= a);
        assert(b.skip(0) =~= b);
    }
}

/// Whether `a` comes before `b` in the order of `text_lt`.
pub fn text_before(a: &str, b: &str) -> (r: bool)
    ensures
        r == text_lt(a@, b@),
{
    let x = chars_of(a);
    let y = chars_of(b);
    let mut i: usize = 0;
    while i < x.len() && i < y.len() && x[i] == y[i]
        invariant
            i <= x@.len(),
            i <= y@.len(),
            x@ == a@,
            y@ == b@,
            x@.take(i as int) == y@.take(i as int),
        decreases x@.len() - i,
    {
        assert(x@.take(i + 1) =~= x@.take(i as int).push(x@[i as int]));
        assert(y@.take(i + 1) =~= y@.take(i as int).push(y@[i as int]));
        i = i + 1;
    }
    proof {
        lemma_text_lt_skip(a@, b@, i as int);
    }
    assert(i < x@.len() ==> x@.skip(i as int)[0] == x@[i as int]);
    assert(i < y@.len() ==> y@.skip(i as int)[0] == y@[i as int]);
    if i == x.len() {
        i < y.len()
    } else if i == y.len() {
        false
    } else {
        x[i] < y[i]
    }
}

/// What orders the events of a history: the day, then the kind, then the tag
/// on the other side.
pub open spec fn event_key(e: Event) -> (Seq<char>, Seq<char>, Seq<char>) {
    (e.date@, e.kind@, e.other@)
}

/// Strict order on event keys, field by field.
pub open spec fn key_lt(x: (Seq<char>, Seq<char>, Seq<char>), y: (Seq<char>, Seq<char>, Seq<char>)) -> bool {
    text_lt(x.0, y.0) || (x.0 == y.0 && (text_lt(x.1, y.1) || (x.1 == y.1 && text_lt(x.2, y.2))))
}

proof fn lemma_key_lt_irreflexive(x: (Seq<char>, Seq<char>, Seq<char>))
    ensures
        !key_lt(x, x),
{
    lemma_text_lt_irreflexive(x.0);
    lemma_text_lt_irreflexive(x.1);
    lemma_text_lt_irreflexive(x.2);
}

proof fn lemma_key_trichotomy(x: (Seq<char>, Seq<char>, Seq<char>), y: (Seq<char>, Seq<char>, Seq<char>))
    ensures
        key_lt(x, y) || x == y || key_lt(y, x),
{
    lemma_text_trichotomy(x.0, y.0);
    lemma_text_trichotomy(x.1, y.1);
    lemma_text_trichotomy(x.2, y.2);
}

proof fn lemma_key_lt_transitive(
    x: (Seq<char>, Seq<char>, Seq<char>),
    y: (Seq<char>, Seq<char>, Seq<char>),
    z: (Seq<char>, Seq<char>, Seq<char>),
)
    requires
        key_lt(x, y),
        key_lt(y, z),
    ensures
        key_lt(x, z),
{
    if text_lt(x.0, y.0) && text_lt(y.0, z.0) {
        lemma_text_lt_transitive(x.0, y.0, z.0);
    }
    if x.0 == y.0 && y.0 == z.0 {
        if text_lt(x.1, y.1) && text_lt(y.1, z.1) {
            lemma_text_lt_transitive(x.1, y.1, z.1);
        }
        lemma_text_lt_irreflexive(x.0);
        if x.1 == y.1 && y.1 == z.1 {
            lemma_text_lt_irreflexive(x.1);
            lemma_text_lt_transitive(x.2, y.2, z.2);
        }
    }
}

fn event_before(x: &Event, y: &Event) -> (r: bool)
    ensures
        r == key_lt(event_key(*x), event_key(*y)),
{
    if text_before(x.date.as_str(), y.date.as_str()) {
        return true;
    }
    if x.date != y.date {
        return false;
    }
    if text_before(x.kind.as_str(), y.kind.as_str()) {
        return true;
    }
    if x.kind != y.kind {
        return false;
    }
    text_before(x.other.as_str(), y.other.as_str())
}

fn same_key(x: &Event, y: &Event) -> (r: bool)
    ensures
        r == (event_key(*x) == event_key(*y)),
{
    x.date == y.date && x.kind == y.kind && x.other == y.other
}

fn copy_event(e: &Event) -> (r: Event)
    ensures
        r == *e,
{
    Event {
        date: e.date.clone(),
        kind: e.kind.clone(),
        other: e.other.clone(),
        source: e.source.clone(),
        approx: e.approx,
    }
}

/// `e` is the first event of `history` with its key.
pub open spec fn first_of_key(history: Seq<Event>, e: Event) -> bool {
    exists|q: int|
        0 <= q < history.len() && history[q] == e && forall|r: int|
            0 <= r < q ==> event_key(#[trigger] history[r]) != event_key(e)
}

/// The keys of `s` rise strictly.
pub open spec fn keys_rise(s: Seq<Event>) -> bool {
    forall|a: int, b: int| 0 <= a < b < s.len() ==> key_lt(event_key(#[trigger] s[a]), event_key(#[trigger] s[b]))
}

/// Some event of `s` has the key of `e`.
pub open spec fn has_key(s: Seq<Event>, e: Event) -> bool {
    exists|a: int| 0 <= a < s.len() && event_key(#[trigger] s[a]) == event_key(e)
}

proof fn lemma_first_of_key_grows(seen: Seq<Event>, e: Event, x: Event)
    requires
        first_of_key(seen, x),
    ensures
        first_of_key(seen.push(e), x),
{
    let now = seen.push(e);
    let q = choose|q: int|
        0 <= q < seen.len() && seen[q] == x && forall|r: int|
            0 <= r < q ==> event_key(#[trigger] seen[r]) != event_key(x);
    assert(now[q] == seen[q]);
    assert forall|r: int| 0 <= r < q implies event_key(#[trigger] now[r]) != event_key(x) by {
        assert(now[r] == seen[r]);
    }
}

/// Where the keys rise strictly, one at `p` that falls between its neighbours
/// keeps them rising.
proof fn lemma_insert_rises(before: Seq<Event>, p: int, e: Event)
    requires
        keys_rise(before),
        0 <= p <= before.len(),
        forall|a: int| 0 <= a < p ==> key_lt(event_key(#[trigger] before[a]), event_key(e)),
        p < before.len() ==> key_lt(event_key(e), event_key(before[p])),
    ensures
        keys_rise(before.insert(p, e)),
        !has_key(before, e),
{
    let out = before.insert(p, e);
    assert forall|b: int| p <= b < before.len() implies key_lt(event_key(e), event_key(#[trigger] before[b])) by {
        if b > p {
            lemma_key_lt_transitive(event_key(e), event_key(before[p]), event_key(before[b]));
        }
    }
    assert forall|a: int, b: int| 0 <= a < b < out.len() implies key_lt(
        event_key(#[trigger] out[a]),
        event_key(#[trigger] out[b]),
    ) by {
        if b == p {
            assert(out[a] == before[a]);
        } else if a == p {
            assert(out[b] == before[b - 1]);
        } else if b < p {
            assert(out[a] == before[a] && out[b] == before[b]);
        } else if a < p {
            assert(out[a] == before[a] && out[b] == before[b - 1]);
            lemma_key_lt_transitive(event_key(before[a]), event_key(e), event_key(before[b - 1]));
        } else {
            assert(out[a] == before[a - 1] && out[b] == before[b - 1]);
        }
    }
    if has_key(before, e) {
        let a = choose|a: int| 0 <= a < before.len() && event_key(#[trigger] before[a]) == event_key(e);
        lemma_key_lt_irreflexive(event_key(e));
    }
}

/// Adding `e` to a history that holds no event with its key: `e` is the first
/// of its key, and every event that was first still is.
proof fn lemma_insert_first(before: Seq<Event>, seen: Seq<Event>, p: int, e: Event)
    requires
        0 <= p <= before.len(),
        forall|a: int| 0 <= a < before.len() ==> first_of_key(seen, #[trigger] before[a]),
        forall|q: int| 0 <= q < seen.len() ==> has_key(before, #[trigger] seen[q]),
        !has_key(before, e),
    ensures
        forall|a: int| 0 <= a < before.len() + 1 ==> first_of_key(seen.push(e), #[trigger] before.insert(p, e)[a]),
        forall|q: int| 0 <= q < seen.len() + 1 ==> has_key(before.insert(p, e), #[trigger] seen.push(e)[q]),
{
    let out = before.insert(p, e);
    let now = seen.push(e);
    assert forall|a: int| 0 <= a < before.len() + 1 implies first_of_key(now, #[trigger] out[a]) by {
        if a == p {
            assert(now[seen.len() as int] == e);
            assert forall|r: int| 0 <= r < seen.len() implies event_key(#[trigger] now[r]) != event_key(e) by {
                assert(now[r] == seen[r]);
                assert(has_key(before, seen[r]));
                if event_key(seen[r]) == event_key(e) {
                    let b = choose|b: int| 0 <= b < before.len() && event_key(#[trigger] before[b]) == event_key(seen[r]);
                    assert(event_key(before[b]) == event_key(e));
                }
            }
        } else {
            let old_a = if a < p { a } else { a - 1 };
            assert(out[a] == before[old_a]);
            lemma_first_of_key_grows(seen, e, before[old_a]);
        }
    }
    assert forall|q: int| 0 <= q < seen.len() + 1 implies has_key(out, #[trigger] now[q]) by {
        if q == seen.len() {
            assert(out[p] == e);
        } else {
            assert(now[q] == seen[q]);
            assert(has_key(before, seen[q]));
            let b = choose|b: int| 0 <= b < before.len() && event_key(#[trigger] before[b]) == event_key(seen[q]);
            if b < p {
                assert(out[b] == before[b]);
            } else {
                assert(out[b + 1] == before[b]);
            }
        }
    }
}

/// A history put in order: by day, kind and other tag, and of the events that
/// share all three only the first kept.
pub fn tidy_history(history: &Vec<Event>) -> (out: Vec<Event>)
    ensures
        keys_rise(out@),
        forall|a: int| 0 <= a < out@.len() ==> first_of_key(history@, #[trigger] out@[a]),
        forall|q: int| 0 <= q < history@.len() ==> has_key(out@, #[trigger] history@[q]),
{
    let mut out: Vec<Event> = Vec::new();
    let mut i: usize = 0;
    while i < history.len()
        invariant
            i <= history@.len(),
            keys_rise(out@),
            forall|a: int| 0 <= a < out@.len() ==> first_of_key(history@.take(i as int), #[trigger] out@[a]),
            forall|q: int| 0 <= q < i ==> has_key(out@, #[trigger] history@.take(i as int)[q]),
        decreases history@.len() - i,
    {
        let e = &history[i];
        let mut p: usize = 0;
        while p < out.len() && event_before(&out[p], e)
            invariant
                p <= out@.len(),
                forall|a: int| 0 <= a < p ==> key_lt(event_key(#[trigger] out@[a]), event_key(*e)),
            decreases out@.len() - p,
        {
            p = p + 1;
        }
        let ghost before = out@;
        let ghost seen = history@.take(i as int);
        let ghost now = history@.take(i + 1);
        assert(now =~= seen.push(*e));
        if p < out.len() && same_key(&out[p], e) {
            assert forall|a: int| 0 <= a < out@.len() implies first_of_key(now, #[trigger] out@[a]) by {
                lemma_first_of_key_grows(seen, *e, out@[a]);
            }
            assert forall|q: int| 0 <= q < i + 1 implies has_key(out@, #[trigger] now[q]) by {
                if q < i {
                    assert(now[q] == seen[q]);
                } else {
                    assert(event_key(out@[p as int]) == event_key(now[q]));
                }
            }
        } else {
            proof {
                if p < before.len() {
                    lemma_key_trichotomy(event_key(before[p as int]), event_key(*e));
                }
                lemma_insert_rises(before, p as int, *e);
                lemma_insert_first(before, seen, p as int, *e);
            }
            let fresh = copy_event(e);
            out.insert(p, fresh);
            assert(out@ == before.insert(p as int, *e));
        }
        i = i + 1;
    }
    assert(history@.take(history@.len() as int) =~= history@);
    out
}

/// An operation by its kind and its two tags.
pub open spec fn op_view(op: [String; 3]) -> (Seq<char>, Seq<char>, Seq<char>) {
    (op[0]@, op[1]@, op[2]@)
}

/// For each operation, the day and number of the earliest approved request
/// that carried it out, the first seen among requests of the same day.
pub struct FirstRequests {
    days: FxHashMap<(String, String, String), (String, u32)>,
}

impl FirstRequests {
    pub closed spec fn view(&self) -> Map<(Seq<char>, Seq<char>, Seq<char>), (Seq<char>, u32)> {
        op_days(self.days)
    }

    /// No request seen yet.
    pub fn new() -> (r: FirstRequests)
        ensures
            r.view() =~= Map::empty(),
    {
        FirstRequests { days: op_days_new() }
    }

    /// Records that request `id` of day `date` carried out `op`: it dates the
    /// operation unless an earlier day already does.
    pub fn note(&mut self, op: &[String; 3], date: &String, id: u32)
        ensures
            final(self).view() == (if old(self).view().contains_key(op_view(*op)) && !text_lt(
                date@,
                old(self).view()[op_view(*op)].0,
            ) {
                old(self).view()
            } else {
                old(self).view().insert(op_view(*op), (date@, id))
            }),
    {
        let key = (op[0].clone(), op[1].clone(), op[2].clone());
        let keep = match op_days_get(&self.days, &key) {
            Some(first) => !text_before(date.as_str(), first.0.as_str()),
            None => false,
        };
        if !keep {
            op_days_insert(&mut self.days, key, (date.clone(), id));
        }
    }

    /// The request that dates operation `kind` on tags `a` and `b`, if any
    /// carried it out.
    pub fn get(&self, kind: &str, a: &str, b: &str) -> (r: Option<(String, u32)>)
        ensures
            match r {
                Some(v) => self.view().contains_key((kind@, a@, b@)) && self.view()[(kind@, a@, b@)] == (
                    v.0@,
                    v.1,
                ),
                None => !self.view().contains_key((kind@, a@, b@)),
            },
    {
        let key = (kind.to_owned(), a.to_owned(), b.to_owned());
        op_days_get(&self.days, &key)
    }
}

/// The node that tag name `name` stands for: the last tag of that name, when
/// it is a node.
pub open spec fn node_named(names: Seq<Seq<char>>, n_nodes: int, name: Seq<char>) -> Option<int> {
    match last_position(names, name) {
        Some(i) => if i < n_nodes {
            Some(i)
        } else {
            None
        },
        None => None,
    }
}

/// What an operation puts in the history of the node that `me` names, when it
/// names one and the other side is another tag: the node, the kind and the
/// other tag.
pub open spec fn side_change(
    names: Seq<Seq<char>>,
    n_nodes: int,
    kind: Seq<char>,
    me: Seq<char>,
    other: Seq<char>,
) -> Seq<(int, Seq<char>, Seq<char>)> {
    if me != other && node_named(names, n_nodes, me) is Some {
        seq![(node_named(names, n_nodes, me)->0, kind, other)]
    } else {
        seq![]
    }
}

/// The history entries of a request's operations, in order: for each
/// operation, the first tag's and then the second's.
pub open spec fn request_changes(
    names: Seq<Seq<char>>,
    n_nodes: int,
    ops: Seq<[String; 3]>,
) -> Seq<(int, Seq<char>, Seq<char>)>
    decreases ops.len(),
{
    if ops.len() == 0 {
        seq![]
    } else {
        let op = op_view(ops.last());
        request_changes(names, n_nodes, ops.drop_last()) + side_change(names, n_nodes, op.0, op.1, op.2)
            + side_change(names, n_nodes, op.0, op.2, op.1)
    }
}

/// The source that names request `id`.
pub open spec fn request_source(id: u32) -> Seq<char> {
    "bur:"@ + decimal_of(id as nat)
}

fn request_label(id: u32) -> (s: String)
    ensures
        s@ == request_source(id),
{
    let mut s = "bur:".to_owned();
    push_decimal(&mut s, id);
    s
}

fn push_side(
    out: &mut Vec<(u32, Event)>,
    tags: &Tags,
    kind: &String,
    me: &String,
    other: &String,
    date: &String,
    source: &String,
)
    requires
        tags.indexed(),
    ensures
        final(out)@.len() == old(out)@.len() + side_change(
            name_views(tags.names@),
            tags.n_nodes as int,
            kind@,
            me@,
            other@,
        ).len(),
        forall|k: int| 0 <= k < old(out)@.len() ==> #[trigger] final(out)@[k] == old(out)@[k],
        forall|k: int|
            old(out)@.len() <= k < final(out)@.len() ==> {
                let c = side_change(name_views(tags.names@), tags.n_nodes as int, kind@, me@, other@)[k
                    - old(out)@.len()];
                &&& #[trigger] final(out)@[k].0 == c.0
                &&& final(out)@[k].1.date@ == date@
                &&& final(out)@[k].1.kind@ == c.1
                &&& final(out)@[k].1.other@ == c.2
                &&& final(out)@[k].1.source@ == source@
                &&& !final(out)@[k].1.approx
            },
{
    let same: bool = *me == *other;
    if same {
        return;
    }
    proof {
        crate::tags::lemma_last_position_in(tags, me@);
    }
    match tags.index_of(me.as_str()) {
        Some(idx) => {
            if (idx as usize) < tags.n_nodes {
                let ghost before = out@;
                out.push(
                    (
                        idx,
                        Event {
                            date: date.clone(),
                            kind: kind.clone(),
                            other: other.clone(),
                            source: source.clone(),
                            approx: false,
                        },
                    ),
                );
                assert(out@[before.len() as int].0 == idx);
            }
        },
        None => {},
    }
}

proof fn lemma_request_changes_step(names: Seq<Seq<char>>, n: int, ops: Seq<[String; 3]>, i: int)
    requires
        0 <= i < ops.len(),
    ensures
        request_changes(names, n, ops.take(i + 1)) == request_changes(names, n, ops.take(i)) + side_change(
            names,
            n,
            op_view(ops[i]).0,
            op_view(ops[i]).1,
            op_view(ops[i]).2,
        ) + side_change(names, n, op_view(ops[i]).0, op_view(ops[i]).2, op_view(ops[i]).1),
{
    let grown = ops.take(i + 1);
    assert(grown.drop_last() =~= ops.take(i));
    assert(grown.last() == ops[i]);
}

/// `out` carries the history entries `want` of one request: each with its
/// node, kind and other tag, dated `date` and sourced to `source`.
pub open spec fn events_as(
    out: Seq<(u32, Event)>,
    want: Seq<(int, Seq<char>, Seq<char>)>,
    date: Seq<char>,
    source: Seq<char>,
) -> bool {
    &&& out.len() == want.len()
    &&& forall|k: int|
        0 <= k < out.len() ==> {
            &&& #[trigger] out[k].0 == want[k].0
            &&& out[k].1.date@ == date
            &&& out[k].1.kind@ == want[k].1
            &&& out[k].1.other@ == want[k].2
            &&& out[k].1.source@ == source
            &&& !out[k].1.approx
        }
}

/// The history entries that an approved request leaves on the nodes its
/// operations touch, each with the node it belongs to.
#[verifier::spinoff_prover]
#[verifier::rlimit(30)]
pub fn request_events(tags: &Tags, bur: &Bur) -> (out: Vec<(u32, Event)>)
    requires
        tags.indexed(),
    ensures
        events_as(
            out@,
            request_changes(name_views(tags.names@), tags.n_nodes as int, bur.ops@),
            bur.date@,
            request_source(bur.id),
        ),
{
    let source = request_label(bur.id);
    let ghost names = name_views(tags.names@);
    let mut out: Vec<(u32, Event)> = Vec::new();
    let mut i: usize = 0;
    while i < bur.ops.len()
        invariant
            i <= bur.ops@.len(),
            tags.indexed(),
            names == name_views(tags.names@),
            source@ == request_source(bur.id),
            events_as(
                out@,
                request_changes(names, tags.n_nodes as int, bur.ops@.take(i as int)),
                bur.date@,
                request_source(bur.id),
            ),
        decreases bur.ops@.len() - i,
    {
        let op = &bur.ops[i];
        let ghost before = out@;
        let ghost n = tags.n_nodes as int;
        push_side(&mut out, tags, &op[0], &op[1], &op[2], &bur.date, &source);
        let ghost mid = out@;
        push_side(&mut out, tags, &op[0], &op[2], &op[1], &bur.date, &source);
        proof {
            let prefix = bur.ops@.take(i as int);
            let grown = bur.ops@.take(i + 1);
            lemma_request_changes_step(names, n, bur.ops@, i as int);
            let v = op_view(bur.ops@[i as int]);
            let a = side_change(names, n, v.0, v.1, v.2);
            let b = side_change(names, n, v.0, v.2, v.1);
            let want = request_changes(names, n, grown);
            let was = request_changes(names, n, prefix);
            assert(want == was + a + b);
            assert(out@.len() == want.len());
            assert forall|k: int| 0 <= k < out@.len() implies {
                &&& #[trigger] out@[k].0 == want[k].0
                &&& out@[k].1.date@ == bur.date@
                &&& out@[k].1.kind@ == want[k].1
                &&& out@[k].1.other@ == want[k].2
                &&& out@[k].1.source@ == request_source(bur.id)
                &&& !out@[k].1.approx
            } by {
                if k < before.len() {
                    assert(out@[k] == mid[k]);
                    assert(mid[k] == before[k]);
                    assert(want[k] == was[k]);
                } else if k < mid.len() {
                    assert(out@[k] == mid[k]);
                    assert(want[k] == a[k - before.len()]);
                } else {
                    assert(want[k] == b[k - mid.len()]);
                }
            }
            assert(events_as(out@, want, bur.date@, request_source(bur.id)));
        }
        i = i + 1;
    }
    assert(bur.ops@.take(bur.ops@.len() as int) =~= bur.ops@);
    out
}

/// `a` comes before `b` in a changelog, newest first: a later day, or the
/// same day and a higher number.
pub open spec fn newer(a: Bur, b: Bur) -> bool {
    text_lt(b.date@, a.date@) || (a.date@ == b.date@ && a.id > b.id)
}

/// Two requests that a changelog cannot tell apart: same day, same number.
pub open spec fn same_place(a: Bur, b: Bur) -> bool {
    a.date@ == b.date@ && a.id == b.id
}

proof fn lemma_newer_order(a: Bur, b: Bur, c: Bur)
    ensures
        !newer(a, a),
        newer(a, b) || same_place(a, b) || newer(b, a),
        !(newer(a, b) && newer(b, a)),
        newer(a, b) && newer(b, c) ==> newer(a, c),
        same_place(a, b) ==> (newer(a, c) == newer(b, c) && newer(c, a) == newer(c, b)),
{
    lemma_text_lt_irreflexive(a.date@);
    lemma_text_lt_irreflexive(b.date@);
    lemma_text_trichotomy(a.date@, b.date@);
    if text_lt(a.date@, b.date@) && text_lt(b.date@, a.date@) {
        lemma_text_lt_transitive(a.date@, b.date@, a.date@);
    }
    if newer(a, b) && newer(b, c) {
        if text_lt(b.date@, a.date@) && text_lt(c.date@, b.date@) {
            lemma_text_lt_transitive(c.date@, b.date@, a.date@);
        }
    }
}

fn newer_than(a: &Bur, b: &Bur) -> (r: bool)
    ensures
        r == newer(*a, *b),
{
    text_before(b.date.as_str(), a.date.as_str()) || (a.date == b.date && a.id > b.id)
}

/// `out` holds the requests of `input`, each once: `out[k]` is `input[from[k]]`,
/// and requests of the same day and number keep the order they had.
pub open spec fn moved_from(out: Seq<Bur>, input: Seq<Bur>, from: Seq<int>) -> bool {
    &&& from.len() == out.len()
    &&& forall|k: int| 0 <= k < from.len() ==> 0 <= #[trigger] from[k] < input.len()
    &&& forall|k: int| 0 <= k < from.len() ==> out[k] == input[#[trigger] from[k]]
    &&& forall|a: int, b: int| 0 <= a < b < from.len() ==> #[trigger] from[a] != #[trigger] from[b]
    &&& forall|a: int, b: int|
        0 <= a < b < from.len() && same_place(out[a], out[b]) ==> #[trigger] from[a] < #[trigger] from[b]
}

/// A changelog in order, newest first: by day, then by number, both falling,
/// and requests of the same day and number in the order they came.
pub fn newest_first(burs: Vec<Bur>) -> (out: Vec<Bur>)
    ensures
        out@.len() == burs@.len(),
        forall|a: int, b: int| 0 <= a < b < out@.len() ==> !newer(#[trigger] out@[b], #[trigger] out@[a]),
        exists|from: Seq<int>| #[trigger] moved_from(out@, burs@, from),
{
    let ghost input = burs@;
    let mut out: Vec<Bur> = Vec::new();
    let ghost mut from: Seq<int> = seq![];
    for b in it: burs.into_iter()
        invariant
            it.seq() == input,
            out@.len() == it.index(),
            from.len() == out@.len(),
            forall|a: int, c: int| 0 <= a < c < out@.len() ==> !newer(#[trigger] out@[c], #[trigger] out@[a]),
            forall|k: int| 0 <= k < from.len() ==> 0 <= #[trigger] from[k] < it.index(),
            forall|k: int| 0 <= k < from.len() ==> out@[k] == input[#[trigger] from[k]],
            forall|a: int, c: int| 0 <= a < c < from.len() ==> #[trigger] from[a] != #[trigger] from[c],
            forall|a: int, c: int|
                0 <= a < c < from.len() && same_place(out@[a], out@[c]) ==> #[trigger] from[a]
                    < #[trigger] from[c],
    {
        let mut p: usize = 0;
        while p < out.len() && !newer_than(&b, &out[p])
            invariant
                p <= out@.len(),
                forall|q: int| 0 <= q < p ==> !newer(b, #[trigger] out@[q]),
            decreases out@.len() - p,
        {
            p = p + 1;
        }
        let ghost before = out@;
        let ghost was = from;
        let ghost i = it.index() as int;
        out.insert(p, b);
        proof {
            from = was.insert(p as int, i);
            assert forall|q: int| p < q < before.len() implies !newer(#[trigger] before[q], b) by {
                lemma_newer_order(before[q], b, before[p as int]);
                lemma_newer_order(b, before[p as int], before[q]);
            }
            if p < before.len() {
                lemma_newer_order(before[p as int], b, before[p as int]);
            }
            assert forall|a: int, c: int| 0 <= a < c < out@.len() implies !newer(
                #[trigger] out@[c],
                #[trigger] out@[a],
            ) by {
                if c == p {
                    assert(out@[a] == before[a]);
                } else if a == p {
                    assert(out@[c] == before[c - 1]);
                } else if c < p {
                    assert(out@[a] == before[a] && out@[c] == before[c]);
                } else if a < p {
                    assert(out@[a] == before[a] && out@[c] == before[c - 1]);
                    lemma_newer_order(before[c - 1], b, before[a]);
                } else {
                    assert(out@[a] == before[a - 1] && out@[c] == before[c - 1]);
                }
            }
            assert forall|k: int| 0 <= k < from.len() implies out@[k] == input[#[trigger] from[k]] by {
                if k < p {
                    assert(out@[k] == before[k] && from[k] == was[k]);
                } else if k > p {
                    assert(out@[k] == before[k - 1] && from[k] == was[k - 1]);
                }
            }
            assert forall|a: int, c: int|
                0 <= a < c < from.len() && same_place(out@[a], out@[c]) implies #[trigger] from[a]
                < #[trigger] from[c] by {
                if c == p {
                    assert(from[a] == was[a]);
                } else if a == p {
                    assert(out@[c] == before[c - 1]);
                    if c - 1 == p {
                        lemma_newer_order(b, before[p as int], before[p as int]);
                    } else {
                        lemma_newer_order(b, before[c - 1], before[p as int]);
                    }
                } else if c < p {
                    assert(from[a] == was[a] && from[c] == was[c]);
                    assert(out@[a] == before[a] && out@[c] == before[c]);
                } else if a < p {
                    assert(from[a] == was[a] && from[c] == was[c - 1]);
                    assert(out@[a] == before[a] && out@[c] == before[c - 1]);
                } else {
                    assert(from[a] == was[a - 1] && from[c] == was[c - 1]);
                    assert(out@[a] == before[a - 1] && out@[c] == before[c - 1]);
                }
            }
            assert forall|a: int, c: int| 0 <= a < c < from.len() implies #[trigger] from[a]
                != #[trigger] from[c] by {
                if a == p {
                    assert(from[c] == was[c - 1]);
                } else if c == p {
                    assert(from[a] == was[a]);
                } else {
                    let a0 = if a < p { a } else { a - 1 };
                    let c0 = if c < p { c } else { c - 1 };
                    assert(from[a] == was[a0] && from[c] == was[c0]);
                }
            }
            assert forall|k: int| 0 <= k < from.len() implies 0 <= #[trigger] from[k] < i + 1 by {
                if k < p {
                    assert(from[k] == was[k]);
                } else if k > p {
                    assert(from[k] == was[k - 1]);
                }
            }
        }
    }
    assert(moved_from(out@, input, from));
    out
}

/// The node a tag name stands for, if it names one.
pub fn node_of_name(tags: &Tags, name: &str) -> (r: Option<u32>)
    requires
        tags.indexed(),
    ensures
        r == (match node_named(name_views(tags.names@), tags.n_nodes as int, name@) {
            Some(i) => Some(i as u32),
            None => None,
        }),
        r matches Some(i) ==> node_named(name_views(tags.names@), tags.n_nodes as int, name@) == Some(
            i as int,
        ),
{
    proof {
        crate::tags::lemma_last_position_in(tags, name@);
    }
    match tags.index_of(name) {
        Some(i) => if (i as usize) < tags.n_nodes {
            Some(i)
        } else {
            None
        },
        None => None,
    }
}

/// The history entry an alias leaves on the node it points to when no approved
/// request made it: dated by the day its row was created, if it has one.
pub fn alias_event(first: &FirstRequests, from: &String, to: &String, created: &str) -> (r: Option<Event>)
    ensures
        r is Some <==> (!first@.contains_key(("alias"@, from@, to@)) && created@.len() > 0),
        r matches Some(e) ==> {
            &&& (has_date_part(created) ==> encode_utf8(e.date@) == created.spec_bytes().take(10))
            &&& (!has_date_part(created) ==> e.date@ == ""@)
            &&& e.kind@ == "alias"@
            &&& e.other@ == from@
            &&& e.source@ == "created_at"@
            &&& !e.approx
        },
{
    let made = first.get("alias", from.as_str(), to.as_str());
    if made.is_none() && !created.is_empty() {
        Some(
            Event {
                date: date_part(created).to_owned(),
                kind: "alias".to_owned(),
                other: from.clone(),
                source: "created_at".to_owned(),
                approx: false,
            },
        )
    } else {
        None
    }
}

/// The day number a date is stored with: the days from 2007-01-01 to the date
/// its text starts with, when it has one and the count fits.
pub open spec fn stamp_day(s: Seq<char>) -> Option<u16> {
    let b = encode_utf8(s);
    if b.len() as usize >= 10 && is_char_boundary(b, 10) {
        day_slot_of(civil_days_since(decode_utf8(b.take(10)), YEAR0 as i16, 1, 1))
    } else {
        None
    }
}

/// Whose history an implication that no request dates is told in, and with
/// which tag on the other side: the child's, then the parent's, each when it is
/// a node.
pub open spec fn implication_sides(child_node: Option<int>, parent_node: Option<int>, child: Seq<char>, parent: Seq<char>) -> Seq<(int, Seq<char>)> {
    (if child_node is Some {
        seq![(child_node->0, parent)]
    } else {
        seq![]
    }) + (if parent_node is Some {
        seq![(parent_node->0, child)]
    } else {
        seq![]
    })
}

/// An implication that no request dates is told once in the history of each
/// side that is a node, naming the tag on the other side, whether or not that
/// other tag is a node, and nowhere else.
pub proof fn lemma_implication_sides_law(
    child_node: Option<int>,
    parent_node: Option<int>,
    child: Seq<char>,
    parent: Seq<char>,
)
    ensures
        ({
            let sides = implication_sides(child_node, parent_node, child, parent);
            &&& sides.len() == (if child_node is Some { 1int } else { 0int }) + (if parent_node is Some {
                1int
            } else {
                0int
            })
            &&& child_node is Some ==> sides.contains((child_node->0, parent))
            &&& parent_node is Some ==> sides.contains((parent_node->0, child))
            &&& forall|k: int|
                0 <= k < sides.len() ==> (child_node == Some((#[trigger] sides[k]).0) && sides[k].1 == parent)
                    || (parent_node == Some(sides[k].0) && sides[k].1 == child)
        }),
{
    let sides = implication_sides(child_node, parent_node, child, parent);
    if child_node is Some {
        assert(sides[0] == (child_node->0, parent));
        if parent_node is Some {
            assert(sides[1] == (parent_node->0, child));
        }
    } else if parent_node is Some {
        assert(sides[0] == (parent_node->0, child));
    }
}

/// What an active implication row leaves behind: the history entries of the
/// nodes on either side, when no request dates it but a day does, and the
/// implication itself when both sides are nodes. `request` is the earliest
/// approved request that made it, `lump` whether its creation day is a lump day.
pub fn implication_record(
    tags: &Tags,
    child: &String,
    parent: &String,
    created: &String,
    request: Option<(String, u32)>,
    lump: bool,
) -> (r: (Vec<(u32, Event)>, Option<NodeImplication>))
    requires
        tags.indexed(),
    ensures
        ({
            let names = name_views(tags.names@);
            let ci = node_named(names, tags.n_nodes as int, child@);
            let pi = node_named(names, tags.n_nodes as int, parent@);
            let want = implication_dating(
                match request {
                    Some(p) => Some((p.0@, p.1)),
                    None => None,
                },
                created@,
                lump,
            );
            let told = request is None && want.0 is Some;
            let sides = if told {
                implication_sides(ci, pi, child@, parent@)
            } else {
                seq![]
            };
            &&& r.0@.len() == sides.len()
            &&& forall|k: int|
                0 <= k < sides.len() ==> {
                    &&& #[trigger] r.0@[k].0 == sides[k].0
                    &&& r.0@[k].1.date@ == want.0->0
                    &&& r.0@[k].1.kind@ == "implicate"@
                    &&& r.0@[k].1.other@ == sides[k].1
                    &&& r.0@[k].1.source@ == want.2
                    &&& r.0@[k].1.approx == want.1
                }
            &&& r.1 == (if ci is Some && pi is Some {
                Some(
                    NodeImplication(
                        ci->0 as u32,
                        pi->0 as u32,
                        match want.0 {
                            Some(d) => stamp_day(d),
                            None => None,
                        },
                        want.1,
                    ),
                )
            } else {
                None
            })
        }),
{
    let ci = node_of_name(tags, child.as_str());
    let pi = node_of_name(tags, parent.as_str());
    let dated_by_request = request.is_some();
    let (date, approx, source) = date_implication(request, created.clone(), lump);
    let mut events: Vec<(u32, Event)> = Vec::new();
    if !dated_by_request {
        match &date {
            Some(d) => {
                match ci {
                    Some(c) => {
                        events.push(
                            (
                                c,
                                Event {
                                    date: d.clone(),
                                    kind: "implicate".to_owned(),
                                    other: parent.clone(),
                                    source: source.clone(),
                                    approx,
                                },
                            ),
                        );
                    },
                    None => {},
                }
                match pi {
                    Some(p) => {
                        events.push(
                            (
                                p,
                                Event {
                                    date: d.clone(),
                                    kind: "implicate".to_owned(),
                                    other: child.clone(),
                                    source: source.clone(),
                                    approx,
                                },
                            ),
                        );
                    },
                    None => {},
                }
            },
            None => {},
        }
    }
    let day = match &date {
        Some(d) => days_since_2007(d.as_str()),
        None => None,
    };
    let link = match (ci, pi) {
        (Some(c), Some(p)) => Some(NodeImplication(c, p, day, approx)),
        _ => None,
    };
    (events, link)
}

} // verus!
