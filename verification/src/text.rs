use std::collections::BTreeMap;

use vstd::prelude::*;
use vstd::string::StringSliceAdditionalSpecFns;
use vstd::utf8::{decode_utf8, encode_utf8, encode_utf8_decode_utf8, is_char_boundary};

use crate::posts::YEAR0;

verus! {

/// How the text shards are built.
pub struct TextParams {
    /// A day with more implications than this is taken for a migration.
    pub lump_threshold: usize,
    /// The longest wiki excerpt, in characters.
    pub excerpt_chars: usize,
    /// Nodes to a text shard.
    pub shard_size: usize,
}

/// What the site needs to find a node's text shard.
pub struct TextMeta {
    pub shard_size: usize,
}

/// An approved bulk update request and the operations it carried out.
pub struct Bur {
    pub id: u32,
    pub date: String,
    pub title: String,
    /// Each operation as its kind and its two tags.
    pub ops: Vec<[String; 3]>,
}

/// An implication between two nodes: child, parent, the day it was dated to
/// and whether that date is approximate.
pub struct NodeImplication(pub u32, pub u32, pub Option<u16>, pub bool);

/// A change in a tag's history.
pub struct Event {
    pub date: String,
    pub kind: String,
    /// The tag on the other side of the alias or implication.
    pub other: String,
    pub source: String,
    /// The date came from a migration day rather than the change itself.
    pub approx: bool,
}

/// The text the site shows for one node.
pub struct NodeText {
    pub wiki: Option<String>,
    pub links: Vec<u32>,
    pub aliases: Vec<String>,
    pub children: Vec<String>,
    pub parents: Vec<String>,
    pub history: Vec<Event>,
    /// Filled in by the emit stage.
    pub ratings: [u32; 3],
    pub region: u32,
    /// Flat triples of node, quantised weight, shared post count.
    pub edges: Vec<u32>,
    /// Flat pairs of node, quantised similarity.
    pub similar: Vec<u32>,
}

/// Everything the text stage produces.
pub struct TextOutput {
    pub aliases: Vec<(String, u32)>,
    pub implications: Vec<NodeImplication>,
    pub changelog: Vec<Bur>,
    pub shards: BTreeMap<usize, BTreeMap<u32, NodeText>>,
}

/// The date at the front of a timestamp: its first ten bytes, when the text
/// has them and they end on a character.
pub open spec fn has_date_part(ts: &str) -> bool {
    ts.spec_bytes().len() as usize >= 10 && is_char_boundary(ts.spec_bytes(), 10)
}

/// The first ten bytes of a timestamp, its `YYYY-MM-DD`, or the empty string
/// when it is shorter or a character straddles the tenth byte.
pub fn date_part(ts: &str) -> (d: &str)
    ensures
        has_date_part(ts) ==> d.spec_bytes() == ts.spec_bytes().take(10),
        !has_date_part(ts) ==> d@ == ""@,
{
    if ts.len() >= 10 && ts.is_char_boundary(10) {
        let (head, _) = ts.split_at(10);
        assert(head.spec_bytes() =~= ts.spec_bytes().take(10));
        head
    } else {
        ""
    }
}

/// The days from the civil date `year`-`month`-`day` to the civil date that
/// jiff reads in `text`, if it reads one and the difference can be taken.
pub uninterp spec fn civil_days_since(text: Seq<char>, year: i16, month: i8, day: i8) -> Option<i32>;

/// Parses `text` with jiff's `FromStr` for `civil::Date`, then takes
/// `Date::since` from `civil::date(year, month, day)` and reads the days of
/// the span with `Span::get_days`. The contract only names the result, a
/// function of the text and the start date: jiff's date grammar is not
/// restated. `requires` keeps the start date to one that `civil::date`
/// accepts in every month.
#[verifier::external_body]
fn jiff_days_since(text: &str, year: i16, month: i8, day: i8) -> (r: Option<i32>)
    requires
        -9999 <= year <= 9999,
        1 <= month <= 12,
        1 <= day <= 28,
    ensures
        r == civil_days_since(text@, year, month, day),
{
    let date: jiff::civil::Date = match text.parse() {
        Ok(d) => d,
        Err(_) => return None,
    };
    match date.since(jiff::civil::date(year, month, day)) {
        Ok(span) => Some(span.get_days()),
        Err(_) => None,
    }
}

/// A day count as the `u16` the dataset stores, if it fits.
pub fn day_slot(days: Option<i32>) -> (r: Option<u16>)
    ensures
        r == (match days {
            Some(d) => if 0 <= d <= u16::MAX {
                Some(d as u16)
            } else {
                None
            },
            None => None,
        }),
{
    match days {
        Some(d) => if 0 <= d && d <= 65535 {
            Some(d as u16)
        } else {
            None
        },
        None => None,
    }
}

/// The days from 2007-01-01 to the date a timestamp starts with.
pub fn days_since_2007(date: &str) -> (r: Option<u16>)
    ensures
        !has_date_part(date) ==> r is None,
        has_date_part(date) ==> r == day_slot_of(
            civil_days_since(decode_utf8(date.spec_bytes().take(10)), YEAR0 as i16, 1, 1),
        ),
{
    if date.len() >= 10 && date.is_char_boundary(10) {
        let (head, _) = date.split_at(10);
        let days = jiff_days_since(head, YEAR0 as i16, 1, 1);
        assert(head.spec_bytes() =~= date.spec_bytes().take(10));
        proof {
            encode_utf8_decode_utf8(head@);
        }
        day_slot(days)
    } else {
        None
    }
}

/// The `u16` a day count is stored as, if it fits.
pub open spec fn day_slot_of(days: Option<i32>) -> Option<u16> {
    match days {
        Some(d) => if 0 <= d <= u16::MAX {
            Some(d as u16)
        } else {
            None
        },
        None => None,
    }
}

/// A character with Unicode's White_Space property, as `char::is_whitespace`
/// and `str::trim` take it.
pub open spec fn is_ws(c: char) -> bool {
    ||| ('\u{9}' <= c && c <= '\u{d}')
    ||| c == ' '
    ||| c == '\u{85}'
    ||| c == '\u{a0}'
    ||| c == '\u{1680}'
    ||| ('\u{2000}' <= c && c <= '\u{200a}')
    ||| c == '\u{2028}'
    ||| c == '\u{2029}'
    ||| c == '\u{202f}'
    ||| c == '\u{205f}'
    ||| c == '\u{3000}'
}

pub(crate) fn ws(c: char) -> (b: bool)
    ensures
        b == is_ws(c),
{
    ('\u{9}' <= c && c <= '\u{d}') || c == ' ' || c == '\u{85}' || c == '\u{a0}' || c == '\u{1680}' || (
    '\u{2000}' <= c && c <= '\u{200a}') || c == '\u{2028}' || c == '\u{2029}' || c == '\u{202f}' || c
        == '\u{205f}' || c == '\u{3000}'
}

/// The text with its leading whitespace removed.
pub open spec fn strip_front(s: Seq<char>) -> Seq<char>
    decreases s.len(),
{
    if s.len() > 0 && is_ws(s[0]) {
        strip_front(s.drop_first())
    } else {
        s
    }
}

/// The text with its trailing whitespace removed.
pub open spec fn strip_back(s: Seq<char>) -> Seq<char>
    decreases s.len(),
{
    if s.len() > 0 && is_ws(s.last()) {
        strip_back(s.drop_last())
    } else {
        s
    }
}

/// The text without whitespace at either end, as `str::trim` gives it.
pub open spec fn trimmed(s: Seq<char>) -> Seq<char> {
    strip_back(strip_front(s))
}

/// The first word of a text, as `split_whitespace` yields it first.
pub open spec fn first_word(s: Seq<char>) -> Option<Seq<char>> {
    let t = strip_front(s);
    if t.len() == 0 {
        None
    } else {
        Some(t.take(word_end(t, 0)))
    }
}

/// Where the run of non-whitespace that starts at `i` ends.
pub open spec fn word_end(s: Seq<char>, i: int) -> int
    decreases s.len() - i,
{
    if i < 0 || i >= s.len() || is_ws(s[i]) {
        i
    } else {
        word_end(s, i + 1)
    }
}

/// Whether `->` starts at `i`.
pub open spec fn arrow_at(s: Seq<char>, i: int) -> bool {
    0 <= i && i + 1 < s.len() && s[i] == '-' && s[i + 1] == '>'
}

/// The first `->` at or after `from`.
pub open spec fn first_arrow(s: Seq<char>, from: int) -> Option<int>
    decreases s.len() - from,
{
    if from < 0 || from + 1 >= s.len() {
        None
    } else if arrow_at(s, from) {
        Some(from)
    } else {
        first_arrow(s, from + 1)
    }
}

/// The text before the first `->`, the first piece `split("->")` yields.
pub open spec fn before_arrow(s: Seq<char>) -> Seq<char> {
    match first_arrow(s, 0) {
        None => s,
        Some(p) => s.take(p),
    }
}

/// The text between the first and the second `->`, the second piece
/// `split("->")` yields, if there is a first.
pub open spec fn after_arrow(s: Seq<char>) -> Option<Seq<char>> {
    match first_arrow(s, 0) {
        None => None,
        Some(p) => Some(
            match first_arrow(s, p + 2) {
                None => s.skip(p + 2),
                Some(q) => s.subrange(p + 2, q),
            },
        ),
    }
}

/// The operation prefixes of bulk update scripts and the kind each stands for,
/// in the order they are tried.
pub open spec fn op_table() -> Seq<(Seq<char>, Seq<char>)> {
    seq![
        ("create alias "@, "alias"@),
        ("create implication "@, "implicate"@),
        ("remove alias "@, "unalias"@),
        ("remove implication "@, "unimplicate"@),
        ("change category "@, "category"@),
        ("mass update "@, "update"@),
        ("alias "@, "alias"@),
        ("implicate "@, "implicate"@),
        ("imply "@, "implicate"@),
        ("unalias "@, "unalias"@),
        ("unimplicate "@, "unimplicate"@),
        ("unimply "@, "unimplicate"@),
        ("category "@, "category"@),
        ("update "@, "update"@),
        ("rename "@, "rename"@),
        ("nuke "@, "nuke"@),
        ("deprecate "@, "deprecate"@),
        ("undeprecate "@, "undeprecate"@)
    ]
}

/// `p` starts `s`.
pub open spec fn starts_with(s: Seq<char>, p: Seq<char>) -> bool {
    p.len() <= s.len() && s.take(p.len() as int) == p
}

/// The first entry of the table from `j` on whose prefix starts `s`.
pub open spec fn first_match(s: Seq<char>, j: int) -> Option<int>
    decreases op_table().len() - j,
{
    if j < 0 || j >= op_table().len() {
        None
    } else if starts_with(s, op_table()[j].0) {
        Some(j)
    } else {
        first_match(s, j + 1)
    }
}

/// What a line of a bulk update script says: its kind and its two tags, the
/// second empty when it names one; nothing for a blank line, a comment or a
/// line that starts with no known operation.
pub open spec fn op_of(line: Seq<char>) -> Option<(Seq<char>, Seq<char>, Seq<char>)> {
    let t = trimmed(line);
    if t.len() == 0 || t[0] == '#' {
        None
    } else {
        let lower = text_lower(t);
        match first_match(lower, 0) {
            None => None,
            Some(j) => {
                let rest = lower.skip(op_table()[j].0.len() as int);
                match first_word(before_arrow(rest)) {
                    None => None,
                    Some(a) => {
                        let b = match after_arrow(rest) {
                            Some(x) => match first_word(x) {
                                Some(w) => w,
                                None => Seq::empty(),
                            },
                            None => Seq::empty(),
                        };
                        Some((op_table()[j].1, a, b))
                    },
                }
            },
        }
    }
}

/// What `str::to_lowercase` makes of a text.
pub uninterp spec fn lowercase_of(s: Seq<char>) -> Seq<char>;

/// Every character of the text is ASCII.
pub open spec fn is_ascii_text(s: Seq<char>) -> bool {
    forall|i: int| 0 <= i < s.len() ==> (#[trigger] s[i] as u32) < 128
}

/// An ASCII capital letter made small; any other character as it is.
pub open spec fn ascii_lower_char(c: char) -> char {
    if 'A' <= c && c <= 'Z' {
        ((c as u32) + 32) as char
    } else {
        c
    }
}

/// An ASCII small letter made capital; any other character as it is.
pub open spec fn ascii_upper_char(c: char) -> char {
    if 'a' <= c && c <= 'z' {
        ((c as u32) - 32) as char
    } else {
        c
    }
}

/// The text with its ASCII capitals made small.
pub open spec fn ascii_lower(s: Seq<char>) -> Seq<char> {
    s.map_values(|c: char| ascii_lower_char(c))
}

/// The text with its ASCII small letters made capital.
pub open spec fn ascii_upper(s: Seq<char>) -> Seq<char> {
    s.map_values(|c: char| ascii_upper_char(c))
}

/// The lowercase of a text: for ASCII text, its capitals made small, else
/// what `str::to_lowercase` makes of it.
pub open spec fn text_lower(s: Seq<char>) -> Seq<char> {
    if is_ascii_text(s) {
        ascii_lower(s)
    } else {
        lowercase_of(s)
    }
}

/// Calls std's `str::to_lowercase`. The contract names the result, a function
/// of the text: Unicode's case tables are not restated. It states what they
/// give for ASCII text, whose lowercase letters are the ASCII ones: the
/// capitals `A` to `Z` become `a` to `z` and every other character stays.
#[verifier::external_body]
pub(crate) fn lowercase(s: &str) -> (r: String)
    ensures
        r@ == lowercase_of(s@),
        is_ascii_text(s@) ==> r@ == ascii_lower(s@),
{
    s.to_lowercase()
}

/// Calls `String::push`. The contract claims what its documentation says: the
/// character is appended to the end of the string.
#[verifier::external_body]
pub(crate) fn push_char(s: &mut String, c: char)
    ensures
        final(s)@ == old(s)@.push(c),
{
    s.push(c);
}

/// The characters of a text.
pub(crate) fn chars_of(s: &str) -> (out: Vec<char>)
    ensures
        out@ == s@,
{
    let mut out: Vec<char> = Vec::new();
    for ch in it: s.chars()
        invariant
            it.seq() == s@,
            out@ == it.seq().take(it.index() as int),
    {
        out.push(ch);
        assert(out@ =~= it.seq().take(it.index() + 1));
    }
    assert(out@ =~= s@);
    out
}

/// A string of characters `lo..hi`.
pub(crate) fn string_of(cs: &Vec<char>, lo: usize, hi: usize) -> (out: String)
    requires
        lo <= hi <= cs@.len(),
    ensures
        out@ == cs@.subrange(lo as int, hi as int),
{
    let mut out = String::new();
    let mut i: usize = lo;
    while i < hi
        invariant
            lo <= i <= hi <= cs@.len(),
            out@ == cs@.subrange(lo as int, i as int),
        decreases hi - i,
    {
        push_char(&mut out, cs[i]);
        i = i + 1;
        assert(out@ =~= cs@.subrange(lo as int, i as int));
    }
    out
}

proof fn lemma_strip_front_skip(s: Seq<char>, i: int)
    requires
        0 <= i <= s.len(),
        forall|k: int| 0 <= k < i ==> is_ws(#[trigger] s[k]),
    ensures
        strip_front(s) == strip_front(s.skip(i)),
    decreases i,
{
    if i > 0 {
        assert(s.skip(1) =~= s.drop_first());
        lemma_strip_front_skip(s.drop_first(), i - 1);
        assert(s.drop_first().skip(i - 1) =~= s.skip(i));
    } else {
        assert(s.skip(0) =~= s);
    }
}

proof fn lemma_strip_back_take(s: Seq<char>, j: int)
    requires
        0 <= j <= s.len(),
        forall|k: int| j <= k < s.len() ==> is_ws(#[trigger] s[k]),
    ensures
        strip_back(s) == strip_back(s.take(j)),
    decreases s.len() - j,
{
    if j < s.len() {
        assert(s.drop_last().take(j) =~= s.take(j));
        lemma_strip_back_take(s.drop_last(), j);
    } else {
        assert(s.take(j) =~= s);
    }
}

/// Where the text starts once leading whitespace is skipped from `lo`.
pub(crate) fn skip_ws(cs: &Vec<char>, lo: usize, hi: usize) -> (i: usize)
    requires
        lo <= hi <= cs@.len(),
    ensures
        lo <= i <= hi,
        strip_front(cs@.subrange(lo as int, hi as int)) == cs@.subrange(i as int, hi as int),
{
    let mut i: usize = lo;
    while i < hi && ws(cs[i])
        invariant
            lo <= i <= hi <= cs@.len(),
            forall|k: int| lo <= k < i ==> is_ws(#[trigger] cs@[k]),
        decreases hi - i,
    {
        i = i + 1;
    }
    let ghost s = cs@.subrange(lo as int, hi as int);
    proof {
        assert forall|k: int| 0 <= k < i - lo implies is_ws(#[trigger] s[k]) by {
            assert(s[k] == cs@[lo + k]);
        }
        lemma_strip_front_skip(s, i - lo);
        assert(s.skip(i - lo) =~= cs@.subrange(i as int, hi as int));
        let t = cs@.subrange(i as int, hi as int);
        if t.len() > 0 {
            assert(t[0] == cs@[i as int]);
        }
    }
    i
}

/// Where the run of non-whitespace from `lo` ends, at most at `hi`.
fn skip_word(cs: &Vec<char>, lo: usize, hi: usize) -> (i: usize)
    requires
        lo <= hi <= cs@.len(),
    ensures
        lo <= i <= hi,
        word_end(cs@.subrange(lo as int, hi as int), 0) == i - lo,
{
    let ghost s = cs@.subrange(lo as int, hi as int);
    let mut i: usize = lo;
    while i < hi && !ws(cs[i])
        invariant
            lo <= i <= hi <= cs@.len(),
            s == cs@.subrange(lo as int, hi as int),
            word_end(s, 0) == word_end(s, i - lo),
        decreases hi - i,
    {
        assert(s[i - lo] == cs@[i as int]);
        i = i + 1;
    }
    if i < hi {
        assert(s[i - lo] == cs@[i as int]);
    }
    i
}

/// Where characters `lo..hi` start and end once whitespace is trimmed from
/// both ends.
pub(crate) fn trim_range(cs: &Vec<char>, lo: usize, hi: usize) -> (r: (usize, usize))
    requires
        lo <= hi <= cs@.len(),
    ensures
        lo <= r.0 <= r.1 <= hi,
        trimmed(cs@.subrange(lo as int, hi as int)) == cs@.subrange(r.0 as int, r.1 as int),
{
    let a = skip_ws(cs, lo, hi);
    let mut b = hi;
    while b > a && ws(cs[b - 1])
        invariant
            a <= b <= hi <= cs@.len(),
            forall|k: int| b <= k < hi ==> is_ws(#[trigger] cs@[k]),
        decreases b,
    {
        b = b - 1;
    }
    proof {
        let f = cs@.subrange(a as int, hi as int);
        let t = cs@.subrange(a as int, b as int);
        assert forall|k: int| b - a <= k < f.len() implies is_ws(#[trigger] f[k]) by {
            assert(f[k] == cs@[a + k]);
        }
        lemma_strip_back_take(f, b - a);
        assert(f.take(b - a) =~= t);
        if t.len() > 0 {
            assert(t.last() == cs@[b - 1]);
        }
    }
    (a, b)
}

/// The first word of characters `lo..hi`, as a string.
fn word_in(cs: &Vec<char>, lo: usize, hi: usize) -> (r: Option<String>)
    requires
        lo <= hi <= cs@.len(),
    ensures
        r matches Some(w) ==> first_word(cs@.subrange(lo as int, hi as int)) == Some(w@),
        r is None ==> first_word(cs@.subrange(lo as int, hi as int)) is None,
{
    let start = skip_ws(cs, lo, hi);
    if start == hi {
        return None;
    }
    let end = skip_word(cs, start, hi);
    let ghost t = cs@.subrange(start as int, hi as int);
    assert(t.take(end - start) =~= cs@.subrange(start as int, end as int));
    Some(string_of(cs, start, end))
}

proof fn lemma_first_arrow_in(s: Seq<char>, from: int)
    ensures
        first_arrow(s, from) matches Some(p) ==> from <= p && p + 1 < s.len() && arrow_at(s, p),
    decreases s.len() - from,
{
    if from >= 0 && from + 1 < s.len() && !arrow_at(s, from) {
        lemma_first_arrow_in(s, from + 1);
    }
}

/// The first `->` in characters `from..hi`.
fn find_arrow(cs: &Vec<char>, lo: usize, from: usize, hi: usize) -> (r: Option<usize>)
    requires
        lo <= from <= hi <= cs@.len(),
    ensures
        r == (match first_arrow(cs@.subrange(lo as int, hi as int), from - lo) {
            Some(p) => Some((p + lo) as usize),
            None => None,
        }),
{
    let ghost s = cs@.subrange(lo as int, hi as int);
    proof {
        lemma_first_arrow_in(cs@.subrange(lo as int, hi as int), from - lo);
    }
    let mut i: usize = from;
    while hi - i >= 2
        invariant
            lo <= from <= i <= hi <= cs@.len(),
            s == cs@.subrange(lo as int, hi as int),
            first_arrow(s, from - lo) == first_arrow(s, i - lo),
        decreases hi - i,
    {
        assert(s[i - lo] == cs@[i as int] && s[i - lo + 1] == cs@[i + 1]);
        if cs[i] == '-' && cs[i + 1] == '>' {
            return Some(i);
        }
        i = i + 1;
    }
    None
}

/// The operation prefix and kind of table entry `j`.
fn op_entry(j: usize) -> (r: (&'static str, &'static str))
    requires
        j < op_table().len(),
    ensures
        r.0@ == op_table()[j as int].0,
        r.1@ == op_table()[j as int].1,
{
    match j {
        0 => ("create alias ", "alias"),
        1 => ("create implication ", "implicate"),
        2 => ("remove alias ", "unalias"),
        3 => ("remove implication ", "unimplicate"),
        4 => ("change category ", "category"),
        5 => ("mass update ", "update"),
        6 => ("alias ", "alias"),
        7 => ("implicate ", "implicate"),
        8 => ("imply ", "implicate"),
        9 => ("unalias ", "unalias"),
        10 => ("unimplicate ", "unimplicate"),
        11 => ("unimply ", "unimplicate"),
        12 => ("category ", "category"),
        13 => ("update ", "update"),
        14 => ("rename ", "rename"),
        15 => ("nuke ", "nuke"),
        16 => ("deprecate ", "deprecate"),
        _ => ("undeprecate ", "undeprecate"),
    }
}

/// Whether characters `at..` of `cs` start with `p`.
pub(crate) fn starts_at(cs: &Vec<char>, at: usize, p: &Vec<char>) -> (b: bool)
    requires
        at <= cs@.len(),
    ensures
        b == starts_with(cs@.skip(at as int), p@),
{
    let cl = cs.len();
    if p.len() > cl - at {
        return false;
    }
    let mut i: usize = 0;
    while i < p.len()
        invariant
            cl == cs@.len(),
            i <= p@.len(),
            at + p@.len() <= cs@.len(),
            forall|k: int| 0 <= k < i ==> cs@[at + k] == p@[k],
        decreases p@.len() - i,
    {
        if cs[at + i] != p[i] {
            assert(cs@.skip(at as int).take(p@.len() as int)[i as int] != p@[i as int]);
            return false;
        }
        i = i + 1;
    }
    assert(cs@.skip(at as int).take(p@.len() as int) =~= p@);
    true
}

/// Reads one line of a bulk update script: its operation kind and its two
/// tags, lowercased, the second empty for an operation on one tag.
#[verifier::spinoff_prover]
#[verifier::rlimit(40)]
pub fn parse_op(line: &str) -> (r: Option<[String; 3]>)
    ensures
        r matches Some(op) ==> op_of(line@) == Some((op[0]@, op[1]@, op[2]@)),
        r is None ==> op_of(line@) is None,
{
    let cs = chars_of(line);
    let n = cs.len();
    let lo = skip_ws(&cs, 0, n);
    let mut hi = n;
    while hi > lo && ws(cs[hi - 1])
        invariant
            lo <= hi <= n == cs@.len(),
            forall|k: int| hi <= k < n ==> is_ws(#[trigger] cs@[k]),
        decreases hi,
    {
        hi = hi - 1;
    }
    let ghost t = cs@.subrange(lo as int, hi as int);
    proof {
        assert(cs@.subrange(0, n as int) =~= line@);
        let f = cs@.subrange(lo as int, n as int);
        assert forall|k: int| hi - lo <= k < f.len() implies is_ws(#[trigger] f[k]) by {
            assert(f[k] == cs@[lo + k]);
        }
        lemma_strip_back_take(f, hi - lo);
        assert(f.take(hi - lo) =~= t);
        if t.len() > 0 {
            assert(t.last() == cs@[hi - 1]);
        }
        assert(trimmed(line@) == t);
    }
    if lo == hi || cs[lo] == '#' {
        return None;
    }
    assert(t[0] == cs@[lo as int]);
    let text = string_of(&cs, lo, hi);
    let lower = lowercase(text.as_str());
    let lc = chars_of(lower.as_str());
    assert(lc@ == text_lower(t));
    let mut j: usize = 0;
    while j < 18
        invariant
            j <= 18,
            op_table().len() == 18,
            trimmed(line@) == t,
            t.len() > 0,
            t[0] != '#',
            lc@ == text_lower(t),
            first_match(lc@, 0) == first_match(lc@, j as int),
        decreases 18 - j,
    {
        let (prefix, kind) = op_entry(j);
        let pc = chars_of(prefix);
        assert(lc@.skip(0) =~= lc@);
        if starts_at(&lc, 0, &pc) {
            assert(first_match(lc@, j as int) == Some(j as int));
            let at = pc.len();
            let m = lc.len();
            let ghost rest = lc@.skip(at as int);
            assert(rest =~= lc@.subrange(at as int, m as int));
            let p0 = find_arrow(&lc, at, at, m);
            proof {
                lemma_first_arrow_in(rest, 0);
            }
            let first_end = match p0 {
                Some(p) => p,
                None => m,
            };
            assert(lc@.subrange(at as int, first_end as int) =~= before_arrow(rest)) by {
                match first_arrow(rest, 0) {
                    Some(q) => {
                        assert(rest.take(q) =~= lc@.subrange(at as int, at + q));
                    },
                    None => {},
                }
            }
            let a = match word_in(&lc, at, first_end) {
                Some(w) => w,
                None => {
                    return None;
                },
            };
            let b = match p0 {
                None => String::new(),
                Some(p) => {
                    proof {
                        lemma_first_arrow_in(rest, p + 2 - at);
                    }
                    let p1 = find_arrow(&lc, at, p + 2, m);
                    let second_end = match p1 {
                        Some(q) => q,
                        None => m,
                    };
                    assert(after_arrow(rest) == Some(lc@.subrange(p + 2, second_end as int))) by {
                        assert(rest.skip(p + 2 - at) =~= lc@.subrange(p + 2, m as int));
                        assert(rest.subrange(p + 2 - at, second_end - at) =~= lc@.subrange(p + 2, second_end as int));
                    }
                    match word_in(&lc, p + 2, second_end) {
                        Some(w) => w,
                        None => String::new(),
                    }
                },
            };
            let kc = chars_of(kind);
            let k = string_of(&kc, 0, kc.len());
            assert(kc@.subrange(0, kc@.len() as int) =~= kc@);
            return Some([k, a, b]);
        }
        j = j + 1;
    }
    None
}


/// Where the line that starts at `i` ends: at the next newline, or at the end.
pub open spec fn line_end(s: Seq<char>, i: int) -> int
    decreases s.len() - i,
{
    if i >= s.len() {
        s.len() as int
    } else if s[i] == '\n' {
        i
    } else {
        line_end(s, i + 1)
    }
}

pub proof fn lemma_line_end(s: Seq<char>, i: int)
    requires
        0 <= i,
    ensures
        i <= line_end(s, i) || i > s.len(),
        line_end(s, i) <= s.len(),
        forall|k: int| i <= k < line_end(s, i) ==> s[k] != '\n',
        line_end(s, i) < s.len() ==> s[line_end(s, i)] == '\n',
    decreases s.len() - i,
{
    if i < s.len() && s[i] != '\n' {
        lemma_line_end(s, i + 1);
    }
}

/// The lines of a text from `i` on, as `str::lines` yields them: split at each
/// newline, a carriage return dropped before one, and no empty line after a
/// final newline.
pub open spec fn text_lines(s: Seq<char>, i: int) -> Seq<Seq<char>>
    decreases s.len() + 1 - i,
{
    if i < 0 || i >= s.len() {
        seq![]
    } else {
        let e = line_end(s, i);
        proof {
            lemma_line_end(s, i);
            assert(i <= e);
        }
        let raw = s.subrange(i, e);
        let line = if e < s.len() && raw.len() > 0 && raw.last() == '\r' {
            raw.drop_last()
        } else {
            raw
        };
        seq![line] + text_lines(s, e + 1)
    }
}

/// A line with nothing but whitespace.
pub open spec fn blank(line: Seq<char>) -> bool {
    trimmed(line).len() == 0
}

/// The operations that the lines of a script carry out, in order.
pub open spec fn script_ops(lines: Seq<Seq<char>>) -> Seq<(Seq<char>, Seq<char>, Seq<char>)>
    decreases lines.len(),
{
    if lines.len() == 0 {
        seq![]
    } else {
        let rest = script_ops(lines.drop_last());
        match op_of(lines.last()) {
            Some(op) => rest.push(op),
            None => rest,
        }
    }
}

/// The lines of a script that are neither an operation nor blank.
pub open spec fn unknown_lines(lines: Seq<Seq<char>>) -> nat
    decreases lines.len(),
{
    if lines.len() == 0 {
        0
    } else {
        unknown_lines(lines.drop_last()) + if op_of(lines.last()) is None && !blank(lines.last()) {
            1nat
        } else {
            0nat
        }
    }
}

proof fn lemma_strip_back_keeps(t: Seq<char>)
    requires
        t.len() > 0,
        !is_ws(t[0]),
    ensures
        strip_back(t).len() > 0,
    decreases t.len(),
{
    if t.len() > 1 && is_ws(t.last()) {
        assert(t.drop_last()[0] == t[0]);
        lemma_strip_back_keeps(t.drop_last());
    }
}

proof fn lemma_strip_front_starts(s: Seq<char>)
    ensures
        strip_front(s).len() > 0 ==> !is_ws(strip_front(s)[0]),
    decreases s.len(),
{
    if s.len() > 0 && is_ws(s[0]) {
        lemma_strip_front_starts(s.drop_first());
    }
}

/// Reads a bulk update script: the operations its lines carry out, and how
/// many lines are neither an operation nor blank.
pub fn read_script(script: &str) -> (r: (Vec<[String; 3]>, usize))
    ensures
        ({
            let ops = script_ops(text_lines(script@, 0));
            &&& r.0@.len() == ops.len()
            &&& forall|k: int|
                0 <= k < ops.len() ==> ((#[trigger] r.0@[k])[0]@, r.0@[k][1]@, r.0@[k][2]@) == ops[k]
        }),
        r.1 == unknown_lines(text_lines(script@, 0)),
{
    let cs = chars_of(script);
    let n = cs.len();
    let mut ops: Vec<[String; 3]> = Vec::new();
    let mut unknown: usize = 0;
    let ghost mut done: Seq<Seq<char>> = seq![];
    let mut i: usize = 0;
    while i < n
        invariant
            cs@ == script@,
            n == cs@.len(),
            i <= n,
            text_lines(cs@, 0) == done + text_lines(cs@, i as int),
            ops@.len() == script_ops(done).len(),
            forall|k: int|
                0 <= k < ops@.len() ==> ((#[trigger] ops@[k])[0]@, ops@[k][1]@, ops@[k][2]@) == script_ops(
                    done,
                )[k],
            unknown == unknown_lines(done),
            unknown <= i,
        decreases n - i,
    {
        let mut e: usize = i;
        while e < n && cs[e] != '\n'
            invariant
                i <= e <= n,
                n == cs@.len(),
                line_end(cs@, i as int) == line_end(cs@, e as int),
            decreases n - e,
        {
            e = e + 1;
        }
        let hi = if e < n && e > i && cs[e - 1] == '\r' {
            e - 1
        } else {
            e
        };
        let line = string_of(&cs, i, hi);
        let ghost raw = cs@.subrange(i as int, e as int);
        proof {
            if e < n && e > i {
                assert(raw.last() == cs@[e - 1]);
            }
            if hi < e {
                assert(line@ =~= raw.drop_last());
            } else {
                assert(line@ =~= raw);
            }
            assert(text_lines(cs@, i as int) == seq![line@] + text_lines(cs@, e + 1));
        }
        let ghost grown = done.push(line@);
        proof {
            assert(grown.drop_last() =~= done);
            assert(text_lines(cs@, 0) =~= grown + text_lines(cs@, e + 1));
        }
        let lo = skip_ws(&cs, i, hi);
        proof {
            lemma_strip_front_starts(line@);
            if lo < hi {
                lemma_strip_back_keeps(strip_front(line@));
            }
        }
        match parse_op(line.as_str()) {
            Some(op) => {
                ops.push(op);
            },
            None => {
                if lo < hi {
                    unknown = unknown + 1;
                }
            },
        }
        proof {
            done = grown;
        }
        i = if e < n {
            e + 1
        } else {
            n
        };
    }
    proof {
        assert(done + text_lines(cs@, i as int) =~= done);
    }
    (ops, unknown)
}

/// The timestamp that dates a request: when it was last updated, or else when
/// it was created.
pub open spec fn request_stamp<'a>(created: &'a str, updated: &'a str) -> &'a str {
    if updated@.len() > 0 {
        updated
    } else {
        created
    }
}

/// Reads an approved bulk update request: dated by the day of its last update,
/// or of its creation when it was never updated, with the operations its script
/// carries out. Also answers how many script lines were neither an operation
/// nor blank.
pub fn read_request(id: u32, created: &str, updated: &str, title: String, script: &str) -> (r: (Bur, usize))
    ensures
        r.0.id == id,
        r.0.title == title,
        has_date_part(request_stamp(created, updated)) ==> encode_utf8(r.0.date@) == request_stamp(
            created,
            updated,
        ).spec_bytes().take(10),
        !has_date_part(request_stamp(created, updated)) ==> r.0.date@ == ""@,
        ({
            let ops = script_ops(text_lines(script@, 0));
            &&& r.0.ops@.len() == ops.len()
            &&& forall|k: int|
                0 <= k < ops.len() ==> ((#[trigger] r.0.ops@[k])[0]@, r.0.ops@[k][1]@, r.0.ops@[k][2]@)
                    == ops[k]
        }),
        r.1 == unknown_lines(text_lines(script@, 0)),
{
    let stamp = if updated.is_empty() {
        created
    } else {
        updated
    };
    let date = date_part(stamp).to_owned();
    let (ops, unknown) = read_script(script);
    (Bur { id, date, title, ops }, unknown)
}

proof fn lemma_case_char(c: char)
    requires
        (c as u32) < 128,
    ensures
        is_ws(ascii_upper_char(c)) == is_ws(c),
        ascii_lower_char(ascii_upper_char(c)) == ascii_lower_char(c),
        (ascii_upper_char(c) as u32) < 128,
        (ascii_upper_char(c) == '#') == (c == '#'),
{
    if 'a' <= c && c <= 'z' {
        let u = ((c as u32) - 32) as char;
        assert(u as u32 == c as u32 - 32);
        assert(((u as u32) + 32) as char == c);
    }
}

proof fn lemma_strip_upper(s: Seq<char>)
    requires
        is_ascii_text(s),
    ensures
        strip_front(ascii_upper(s)) == ascii_upper(strip_front(s)),
        strip_back(ascii_upper(s)) == ascii_upper(strip_back(s)),
        is_ascii_text(strip_front(s)),
        is_ascii_text(strip_back(s)),
    decreases s.len(),
{
    if s.len() > 0 {
        lemma_case_char(s[0]);
        lemma_case_char(s.last());
        assert(ascii_upper(s)[0] == ascii_upper_char(s[0]));
        assert(ascii_upper(s).last() == ascii_upper_char(s.last()));
        assert(ascii_upper(s).drop_first() =~= ascii_upper(s.drop_first()));
        assert(ascii_upper(s).drop_last() =~= ascii_upper(s.drop_last()));
        assert(is_ascii_text(s.drop_first())) by {
            assert forall|i: int| 0 <= i < s.drop_first().len() implies (#[trigger] s.drop_first()[i] as u32)
                < 128 by {
                assert(s.drop_first()[i] == s[i + 1]);
            }
        }
        assert(is_ascii_text(s.drop_last())) by {
            assert forall|i: int| 0 <= i < s.drop_last().len() implies (#[trigger] s.drop_last()[i] as u32)
                < 128 by {
                assert(s.drop_last()[i] == s[i]);
            }
        }
        lemma_strip_upper(s.drop_first());
        lemma_strip_upper(s.drop_last());
    }
}

/// A bulk update line reads the same whatever the case of its ASCII letters:
/// making them capital changes neither the operation nor its tags.
pub proof fn lemma_script_case_blind(line: Seq<char>)
    requires
        is_ascii_text(line),
    ensures
        op_of(ascii_upper(line)) == op_of(line),
{
    lemma_strip_upper(line);
    let f = strip_front(line);
    lemma_strip_upper(f);
    let t = trimmed(line);
    let u = ascii_upper(t);
    assert(trimmed(ascii_upper(line)) == u);
    assert(is_ascii_text(t));
    if t.len() > 0 {
        lemma_case_char(t[0]);
        assert(u[0] == ascii_upper_char(t[0]));
    }
    assert(is_ascii_text(u)) by {
        assert forall|i: int| 0 <= i < u.len() implies (#[trigger] u[i] as u32) < 128 by {
            lemma_case_char(t[i]);
        }
    }
    assert(ascii_lower(u) =~= ascii_lower(t)) by {
        assert forall|i: int| 0 <= i < t.len() implies ascii_lower(u)[i] == ascii_lower(t)[i] by {
            lemma_case_char(t[i]);
        }
    }
    assert(text_lower(u) == text_lower(t));
}

/// No ASCII capital letter in the text.
pub open spec fn no_capitals(s: Seq<char>) -> bool {
    forall|i: int| 0 <= i < s.len() ==> !('A' <= #[trigger] s[i] && s[i] <= 'Z')
}

/// A word as a script line names a tag by it: not empty, and no whitespace in
/// it.
pub open spec fn is_word(w: Seq<char>) -> bool {
    w.len() > 0 && forall|i: int| 0 <= i < w.len() ==> !is_ws(#[trigger] w[i])
}

proof fn lemma_first_match_bound(s: Seq<char>, j: int)
    ensures
        first_match(s, j) matches Some(m) ==> 0 <= m < op_table().len() && starts_with(s, op_table()[m].0),
    decreases op_table().len() - j,
{
    if 0 <= j < op_table().len() && !starts_with(s, op_table()[j].0) {
        lemma_first_match_bound(s, j + 1);
    }
}

proof fn lemma_strip_front_suffix(s: Seq<char>)
    ensures
        strip_front(s).len() <= s.len(),
        strip_front(s) == s.skip(s.len() - strip_front(s).len()),
        strip_front(s).len() > 0 ==> !is_ws(strip_front(s)[0]),
    decreases s.len(),
{
    if s.len() > 0 && is_ws(s[0]) {
        lemma_strip_front_suffix(s.drop_first());
        assert(s.drop_first().skip(s.drop_first().len() - strip_front(s).len()) =~= s.skip(
            s.len() - strip_front(s).len(),
        ));
    } else {
        assert(s.skip(0) =~= s);
    }
}

proof fn lemma_word_end(s: Seq<char>, i: int)
    requires
        0 <= i <= s.len(),
    ensures
        i <= word_end(s, i) <= s.len(),
        forall|k: int| i <= k < word_end(s, i) ==> !is_ws(#[trigger] s[k]),
    decreases s.len() - i,
{
    if i < s.len() && !is_ws(s[i]) {
        lemma_word_end(s, i + 1);
    }
}

/// Where in `s` its first word starts.
proof fn lemma_first_word(s: Seq<char>) -> (k: int)
    ensures
        first_word(s) matches Some(w) ==> {
            &&& is_word(w)
            &&& 0 <= k
            &&& k + w.len() <= s.len()
            &&& w == s.subrange(k, k + w.len())
        },
{
    lemma_strip_front_suffix(s);
    let t = strip_front(s);
    let k = s.len() - t.len();
    if t.len() > 0 {
        lemma_word_end(t, 0);
        lemma_word_end(t, 1);
        let w = t.take(word_end(t, 0));
        assert(w.len() > 0);
        assert forall|i: int| 0 <= i < w.len() implies !is_ws(#[trigger] w[i]) by {
            assert(w[i] == t[i]);
        }
        assert(w =~= s.subrange(k, k + w.len()));
    }
    k
}

proof fn lemma_first_arrow_bound(s: Seq<char>, from: int)
    ensures
        first_arrow(s, from) matches Some(p) ==> from <= p && p + 1 < s.len(),
    decreases s.len() - from,
{
    if 0 <= from && from + 1 < s.len() && !arrow_at(s, from) {
        lemma_first_arrow_bound(s, from + 1);
    }
}

proof fn lemma_no_capitals_within(s: Seq<char>, k: int, m: int)
    requires
        no_capitals(s),
        0 <= k <= m <= s.len(),
    ensures
        no_capitals(s.subrange(k, m)),
{
    assert forall|i: int| 0 <= i < m - k implies !('A' <= #[trigger] s.subrange(k, m)[i] && s.subrange(k, m)[i]
        <= 'Z') by {
        assert(s.subrange(k, m)[i] == s[k + i]);
    }
}

/// What a bulk update script line reads as, where it reads as an operation,
/// is one of the kinds of the operation table, a first tag that is a word,
/// and a second tag that is a word or empty. On an ASCII line neither tag
/// holds a capital letter.
pub proof fn lemma_op_shape(line: Seq<char>)
    ensures
        op_of(line) matches Some((kind, a, b)) ==> {
            &&& exists|j: int| 0 <= j < op_table().len() && op_table()[j].1 == kind
            &&& is_word(a)
            &&& b.len() == 0 || is_word(b)
            &&& is_ascii_text(line) ==> no_capitals(a) && no_capitals(b)
        },
{
    let t = trimmed(line);
    if t.len() == 0 || t[0] == '#' {
        return;
    }
    let lower = text_lower(t);
    lemma_first_match_bound(lower, 0);
    let j = match first_match(lower, 0) {
        Some(j) => j,
        None => {
            return;
        },
    };
    let rest = lower.skip(op_table()[j].0.len() as int);
    let front = before_arrow(rest);
    let ka = lemma_first_word(front);
    if first_word(front) is None {
        return;
    }
    let a = first_word(front)->0;
    assert(op_table()[j].1 == (op_of(line)->0).0);
    lemma_first_arrow_bound(rest, 0);
    let tail: Seq<char> = match after_arrow(rest) {
        Some(x) => x,
        None => Seq::empty(),
    };
    let kb = lemma_first_word(tail);
    if is_ascii_text(line) {
        lemma_strip_upper(line);
        lemma_strip_upper(strip_front(line));
        assert(lower == ascii_lower(t));
        assert(no_capitals(lower)) by {
            assert forall|i: int| 0 <= i < lower.len() implies !('A' <= #[trigger] lower[i] && lower[i] <= 'Z') by {
                let c = t[i];
                if 'A' <= c && c <= 'Z' {
                    let l = ((c as u32) + 32) as char;
                    assert(l as u32 == c as u32 + 32);
                }
            }
        }
        lemma_no_capitals_within(lower, op_table()[j].0.len() as int, lower.len() as int);
        assert(rest =~= lower.subrange(op_table()[j].0.len() as int, lower.len() as int));
        lemma_no_capitals_within(rest, 0, front.len() as int);
        match first_arrow(rest, 0) {
            Some(p) => {
                assert(front =~= rest.subrange(0, p));
                lemma_first_arrow_bound(rest, p + 2);
                match first_arrow(rest, p + 2) {
                    Some(q) => {
                        lemma_no_capitals_within(rest, p + 2, q);
                    },
                    None => {
                        assert(rest.skip(p + 2) =~= rest.subrange(p + 2, rest.len() as int));
                        lemma_no_capitals_within(rest, p + 2, rest.len() as int);
                    },
                }
            },
            None => {
                assert(front =~= rest.subrange(0, rest.len() as int));
            },
        }
        lemma_no_capitals_within(front, ka, ka + a.len());
        if first_word(tail) is Some {
            lemma_no_capitals_within(tail, kb, kb + (first_word(tail)->0).len());
        }
        assert(no_capitals(Seq::<char>::empty()));
    }
}

proof fn lemma_clash(s: Seq<char>, p: Seq<char>, q: Seq<char>, k: int)
    requires
        starts_with(s, q),
        0 <= k < p.len(),
        k < q.len(),
        p[k] != q[k],
    ensures
        !starts_with(s, p),
{
    assert(s.take(q.len() as int)[k] == s[k]);
    if starts_with(s, p) {
        assert(s.take(p.len() as int)[k] == s[k]);
    }
}

proof fn lemma_first_match_skip(s: Seq<char>, i: int, j: int)
    requires
        0 <= i <= j < op_table().len(),
        forall|m: int| i <= m < j ==> !starts_with(s, #[trigger] op_table()[m].0),
        starts_with(s, op_table()[j].0),
    ensures
        first_match(s, i) == Some(j),
    decreases j - i,
{
    if i < j {
        lemma_first_match_skip(s, i + 1, j);
    }
}

proof fn lemma_prefix_0(s: Seq<char>)
    requires
        starts_with(s, "create alias "@),
    ensures
        first_match(s, 0) == Some(0int),
{
    reveal_strlit("create alias ");
    lemma_first_match_skip(s, 0, 0);
}

proof fn lemma_prefix_1(s: Seq<char>)
    requires
        starts_with(s, "create implication "@),
    ensures
        first_match(s, 0) == Some(1int),
{
    reveal_strlit("create implication ");
    reveal_strlit("create alias ");
    lemma_clash(s, "create alias "@, "create implication "@, 7);
    assert(!starts_with(s, op_table()[0].0));
    lemma_first_match_skip(s, 0, 1);
}

proof fn lemma_prefix_2(s: Seq<char>)
    requires
        starts_with(s, "remove alias "@),
    ensures
        first_match(s, 0) == Some(2int),
{
    reveal_strlit("remove alias ");
    reveal_strlit("create alias ");
    lemma_clash(s, "create alias "@, "remove alias "@, 0);
    assert(!starts_with(s, op_table()[0].0));
    reveal_strlit("create implication ");
    lemma_clash(s, "create implication "@, "remove alias "@, 0);
    assert(!starts_with(s, op_table()[1].0));
    lemma_first_match_skip(s, 0, 2);
}

proof fn lemma_prefix_3(s: Seq<char>)
    requires
        starts_with(s, "remove implication "@),
    ensures
        first_match(s, 0) == Some(3int),
{
    reveal_strlit("remove implication ");
    reveal_strlit("create alias ");
    lemma_clash(s, "create alias "@, "remove implication "@, 0);
    assert(!starts_with(s, op_table()[0].0));
    reveal_strlit("create implication ");
    lemma_clash(s, "create implication "@, "remove implication "@, 0);
    assert(!starts_with(s, op_table()[1].0));
    reveal_strlit("remove alias ");
    lemma_clash(s, "remove alias "@, "remove implication "@, 7);
    assert(!starts_with(s, op_table()[2].0));
    lemma_first_match_skip(s, 0, 3);
}

proof fn lemma_prefix_4(s: Seq<char>)
    requires
        starts_with(s, "change category "@),
    ensures
        first_match(s, 0) == Some(4int),
{
    reveal_strlit("change category ");
    reveal_strlit("create alias ");
    lemma_clash(s, "create alias "@, "change category "@, 1);
    assert(!starts_with(s, op_table()[0].0));
    reveal_strlit("create implication ");
    lemma_clash(s, "create implication "@, "change category "@, 1);
    assert(!starts_with(s, op_table()[1].0));
    reveal_strlit("remove alias ");
    lemma_clash(s, "remove alias "@, "change category "@, 0);
    assert(!starts_with(s, op_table()[2].0));
    reveal_strlit("remove implication ");
    lemma_clash(s, "remove implication "@, "change category "@, 0);
    assert(!starts_with(s, op_table()[3].0));
    lemma_first_match_skip(s, 0, 4);
}

proof fn lemma_prefix_5(s: Seq<char>)
    requires
        starts_with(s, "mass update "@),
    ensures
        first_match(s, 0) == Some(5int),
{
    reveal_strlit("mass update ");
    reveal_strlit("create alias ");
    lemma_clash(s, "create alias "@, "mass update "@, 0);
    assert(!starts_with(s, op_table()[0].0));
    reveal_strlit("create implication ");
    lemma_clash(s, "create implication "@, "mass update "@, 0);
    assert(!starts_with(s, op_table()[1].0));
    reveal_strlit("remove alias ");
    lemma_clash(s, "remove alias "@, "mass update "@, 0);
    assert(!starts_with(s, op_table()[2].0));
    reveal_strlit("remove implication ");
    lemma_clash(s, "remove implication "@, "mass update "@, 0);
    assert(!starts_with(s, op_table()[3].0));
    reveal_strlit("change category ");
    lemma_clash(s, "change category "@, "mass update "@, 0);
    assert(!starts_with(s, op_table()[4].0));
    lemma_first_match_skip(s, 0, 5);
}

proof fn lemma_prefix_6(s: Seq<char>)
    requires
        starts_with(s, "alias "@),
    ensures
        first_match(s, 0) == Some(6int),
{
    reveal_strlit("alias ");
    reveal_strlit("create alias ");
    lemma_clash(s, "create alias "@, "alias "@, 0);
    assert(!starts_with(s, op_table()[0].0));
    reveal_strlit("create implication ");
    lemma_clash(s, "create implication "@, "alias "@, 0);
    assert(!starts_with(s, op_table()[1].0));
    reveal_strlit("remove alias ");
    lemma_clash(s, "remove alias "@, "alias "@, 0);
    assert(!starts_with(s, op_table()[2].0));
    reveal_strlit("remove implication ");
    lemma_clash(s, "remove implication "@, "alias "@, 0);
    assert(!starts_with(s, op_table()[3].0));
    reveal_strlit("change category ");
    lemma_clash(s, "change category "@, "alias "@, 0);
    assert(!starts_with(s, op_table()[4].0));
    reveal_strlit("mass update ");
    lemma_clash(s, "mass update "@, "alias "@, 0);
    assert(!starts_with(s, op_table()[5].0));
    lemma_first_match_skip(s, 0, 6);
}

proof fn lemma_prefix_7(s: Seq<char>)
    requires
        starts_with(s, "implicate "@),
    ensures
        first_match(s, 0) == Some(7int),
{
    reveal_strlit("implicate ");
    reveal_strlit("create alias ");
    lemma_clash(s, "create alias "@, "implicate "@, 0);
    assert(!starts_with(s, op_table()[0].0));
    reveal_strlit("create implication ");
    lemma_clash(s, "create implication "@, "implicate "@, 0);
    assert(!starts_with(s, op_table()[1].0));
    reveal_strlit("remove alias ");
    lemma_clash(s, "remove alias "@, "implicate "@, 0);
    assert(!starts_with(s, op_table()[2].0));
    reveal_strlit("remove implication ");
    lemma_clash(s, "remove implication "@, "implicate "@, 0);
    assert(!starts_with(s, op_table()[3].0));
    reveal_strlit("change category ");
    lemma_clash(s, "change category "@, "implicate "@, 0);
    assert(!starts_with(s, op_table()[4].0));
    reveal_strlit("mass update ");
    lemma_clash(s, "mass update "@, "implicate "@, 0);
    assert(!starts_with(s, op_table()[5].0));
    reveal_strlit("alias ");
    lemma_clash(s, "alias "@, "implicate "@, 0);
    assert(!starts_with(s, op_table()[6].0));
    lemma_first_match_skip(s, 0, 7);
}

proof fn lemma_prefix_8(s: Seq<char>)
    requires
        starts_with(s, "imply "@),
    ensures
        first_match(s, 0) == Some(8int),
{
    reveal_strlit("imply ");
    reveal_strlit("create alias ");
    lemma_clash(s, "create alias "@, "imply "@, 0);
    assert(!starts_with(s, op_table()[0].0));
    reveal_strlit("create implication ");
    lemma_clash(s, "create implication "@, "imply "@, 0);
    assert(!starts_with(s, op_table()[1].0));
    reveal_strlit("remove alias ");
    lemma_clash(s, "remove alias "@, "imply "@, 0);
    assert(!starts_with(s, op_table()[2].0));
    reveal_strlit("remove implication ");
    lemma_clash(s, "remove implication "@, "imply "@, 0);
    assert(!starts_with(s, op_table()[3].0));
    reveal_strlit("change category ");
    lemma_clash(s, "change category "@, "imply "@, 0);
    assert(!starts_with(s, op_table()[4].0));
    reveal_strlit("mass update ");
    lemma_clash(s, "mass update "@, "imply "@, 0);
    assert(!starts_with(s, op_table()[5].0));
    reveal_strlit("alias ");
    lemma_clash(s, "alias "@, "imply "@, 0);
    assert(!starts_with(s, op_table()[6].0));
    reveal_strlit("implicate ");
    lemma_clash(s, "implicate "@, "imply "@, 4);
    assert(!starts_with(s, op_table()[7].0));
    lemma_first_match_skip(s, 0, 8);
}

proof fn lemma_prefix_9(s: Seq<char>)
    requires
        starts_with(s, "unalias "@),
    ensures
        first_match(s, 0) == Some(9int),
{
    reveal_strlit("unalias ");
    reveal_strlit("create alias ");
    lemma_clash(s, "create alias "@, "unalias "@, 0);
    assert(!starts_with(s, op_table()[0].0));
    reveal_strlit("create implication ");
    lemma_clash(s, "create implication "@, "unalias "@, 0);
    assert(!starts_with(s, op_table()[1].0));
    reveal_strlit("remove alias ");
    lemma_clash(s, "remove alias "@, "unalias "@, 0);
    assert(!starts_with(s, op_table()[2].0));
    reveal_strlit("remove implication ");
    lemma_clash(s, "remove implication "@, "unalias "@, 0);
    assert(!starts_with(s, op_table()[3].0));
    reveal_strlit("change category ");
    lemma_clash(s, "change category "@, "unalias "@, 0);
    assert(!starts_with(s, op_table()[4].0));
    reveal_strlit("mass update ");
    lemma_clash(s, "mass update "@, "unalias "@, 0);
    assert(!starts_with(s, op_table()[5].0));
    reveal_strlit("alias ");
    lemma_clash(s, "alias "@, "unalias "@, 0);
    assert(!starts_with(s, op_table()[6].0));
    reveal_strlit("implicate ");
    lemma_clash(s, "implicate "@, "unalias "@, 0);
    assert(!starts_with(s, op_table()[7].0));
    reveal_strlit("imply ");
    lemma_clash(s, "imply "@, "unalias "@, 0);
    assert(!starts_with(s, op_table()[8].0));
    lemma_first_match_skip(s, 0, 9);
}

proof fn lemma_prefix_10(s: Seq<char>)
    requires
        starts_with(s, "unimplicate "@),
    ensures
        first_match(s, 0) == Some(10int),
{
    reveal_strlit("unimplicate ");
    reveal_strlit("create alias ");
    lemma_clash(s, "create alias "@, "unimplicate "@, 0);
    assert(!starts_with(s, op_table()[0].0));
    reveal_strlit("create implication ");
    lemma_clash(s, "create implication "@, "unimplicate "@, 0);
    assert(!starts_with(s, op_table()[1].0));
    reveal_strlit("remove alias ");
    lemma_clash(s, "remove alias "@, "unimplicate "@, 0);
    assert(!starts_with(s, op_table()[2].0));
    reveal_strlit("remove implication ");
    lemma_clash(s, "remove implication "@, "unimplicate "@, 0);
    assert(!starts_with(s, op_table()[3].0));
    reveal_strlit("change category ");
    lemma_clash(s, "change category "@, "unimplicate "@, 0);
    assert(!starts_with(s, op_table()[4].0));
    reveal_strlit("mass update ");
    lemma_clash(s, "mass update "@, "unimplicate "@, 0);
    assert(!starts_with(s, op_table()[5].0));
    reveal_strlit("alias ");
    lemma_clash(s, "alias "@, "unimplicate "@, 0);
    assert(!starts_with(s, op_table()[6].0));
    reveal_strlit("implicate ");
    lemma_clash(s, "implicate "@, "unimplicate "@, 0);
    assert(!starts_with(s, op_table()[7].0));
    reveal_strlit("imply ");
    lemma_clash(s, "imply "@, "unimplicate "@, 0);
    assert(!starts_with(s, op_table()[8].0));
    reveal_strlit("unalias ");
    lemma_clash(s, "unalias "@, "unimplicate "@, 2);
    assert(!starts_with(s, op_table()[9].0));
    lemma_first_match_skip(s, 0, 10);
}

proof fn lemma_prefix_11(s: Seq<char>)
    requires
        starts_with(s, "unimply "@),
    ensures
        first_match(s, 0) == Some(11int),
{
    reveal_strlit("unimply ");
    reveal_strlit("create alias ");
    lemma_clash(s, "create alias "@, "unimply "@, 0);
    assert(!starts_with(s, op_table()[0].0));
    reveal_strlit("create implication ");
    lemma_clash(s, "create implication "@, "unimply "@, 0);
    assert(!starts_with(s, op_table()[1].0));
    reveal_strlit("remove alias ");
    lemma_clash(s, "remove alias "@, "unimply "@, 0);
    assert(!starts_with(s, op_table()[2].0));
    reveal_strlit("remove implication ");
    lemma_clash(s, "remove implication "@, "unimply "@, 0);
    assert(!starts_with(s, op_table()[3].0));
    reveal_strlit("change category ");
    lemma_clash(s, "change category "@, "unimply "@, 0);
    assert(!starts_with(s, op_table()[4].0));
    reveal_strlit("mass update ");
    lemma_clash(s, "mass update "@, "unimply "@, 0);
    assert(!starts_with(s, op_table()[5].0));
    reveal_strlit("alias ");
    lemma_clash(s, "alias "@, "unimply "@, 0);
    assert(!starts_with(s, op_table()[6].0));
    reveal_strlit("implicate ");
    lemma_clash(s, "implicate "@, "unimply "@, 0);
    assert(!starts_with(s, op_table()[7].0));
    reveal_strlit("imply ");
    lemma_clash(s, "imply "@, "unimply "@, 0);
    assert(!starts_with(s, op_table()[8].0));
    reveal_strlit("unalias ");
    lemma_clash(s, "unalias "@, "unimply "@, 2);
    assert(!starts_with(s, op_table()[9].0));
    reveal_strlit("unimplicate ");
    lemma_clash(s, "unimplicate "@, "unimply "@, 6);
    assert(!starts_with(s, op_table()[10].0));
    lemma_first_match_skip(s, 0, 11);
}

proof fn lemma_prefix_12(s: Seq<char>)
    requires
        starts_with(s, "category "@),
    ensures
        first_match(s, 0) == Some(12int),
{
    reveal_strlit("category ");
    reveal_strlit("create alias ");
    lemma_clash(s, "create alias "@, "category "@, 1);
    assert(!starts_with(s, op_table()[0].0));
    reveal_strlit("create implication ");
    lemma_clash(s, "create implication "@, "category "@, 1);
    assert(!starts_with(s, op_table()[1].0));
    reveal_strlit("remove alias ");
    lemma_clash(s, "remove alias "@, "category "@, 0);
    assert(!starts_with(s, op_table()[2].0));
    reveal_strlit("remove implication ");
    lemma_clash(s, "remove implication "@, "category "@, 0);
    assert(!starts_with(s, op_table()[3].0));
    reveal_strlit("change category ");
    lemma_clash(s, "change category "@, "category "@, 1);
    assert(!starts_with(s, op_table()[4].0));
    reveal_strlit("mass update ");
    lemma_clash(s, "mass update "@, "category "@, 0);
    assert(!starts_with(s, op_table()[5].0));
    reveal_strlit("alias ");
    lemma_clash(s, "alias "@, "category "@, 0);
    assert(!starts_with(s, op_table()[6].0));
    reveal_strlit("implicate ");
    lemma_clash(s, "implicate "@, "category "@, 0);
    assert(!starts_with(s, op_table()[7].0));
    reveal_strlit("imply ");
    lemma_clash(s, "imply "@, "category "@, 0);
    assert(!starts_with(s, op_table()[8].0));
    reveal_strlit("unalias ");
    lemma_clash(s, "unalias "@, "category "@, 0);
    assert(!starts_with(s, op_table()[9].0));
    reveal_strlit("unimplicate ");
    lemma_clash(s, "unimplicate "@, "category "@, 0);
    assert(!starts_with(s, op_table()[10].0));
    reveal_strlit("unimply ");
    lemma_clash(s, "unimply "@, "category "@, 0);
    assert(!starts_with(s, op_table()[11].0));
    lemma_first_match_skip(s, 0, 12);
}

proof fn lemma_prefix_13(s: Seq<char>)
    requires
        starts_with(s, "update "@),
    ensures
        first_match(s, 0) == Some(13int),
{
    reveal_strlit("update ");
    reveal_strlit("create alias ");
    lemma_clash(s, "create alias "@, "update "@, 0);
    assert(!starts_with(s, op_table()[0].0));
    reveal_strlit("create implication ");
    lemma_clash(s, "create implication "@, "update "@, 0);
    assert(!starts_with(s, op_table()[1].0));
    reveal_strlit("remove alias ");
    lemma_clash(s, "remove alias "@, "update "@, 0);
    assert(!starts_with(s, op_table()[2].0));
    reveal_strlit("remove implication ");
    lemma_clash(s, "remove implication "@, "update "@, 0);
    assert(!starts_with(s, op_table()[3].0));
    reveal_strlit("change category ");
    lemma_clash(s, "change category "@, "update "@, 0);
    assert(!starts_with(s, op_table()[4].0));
    reveal_strlit("mass update ");
    lemma_clash(s, "mass update "@, "update "@, 0);
    assert(!starts_with(s, op_table()[5].0));
    reveal_strlit("alias ");
    lemma_clash(s, "alias "@, "update "@, 0);
    assert(!starts_with(s, op_table()[6].0));
    reveal_strlit("implicate ");
    lemma_clash(s, "implicate "@, "update "@, 0);
    assert(!starts_with(s, op_table()[7].0));
    reveal_strlit("imply ");
    lemma_clash(s, "imply "@, "update "@, 0);
    assert(!starts_with(s, op_table()[8].0));
    reveal_strlit("unalias ");
    lemma_clash(s, "unalias "@, "update "@, 1);
    assert(!starts_with(s, op_table()[9].0));
    reveal_strlit("unimplicate ");
    lemma_clash(s, "unimplicate "@, "update "@, 1);
    assert(!starts_with(s, op_table()[10].0));
    reveal_strlit("unimply ");
    lemma_clash(s, "unimply "@, "update "@, 1);
    assert(!starts_with(s, op_table()[11].0));
    reveal_strlit("category ");
    lemma_clash(s, "category "@, "update "@, 0);
    assert(!starts_with(s, op_table()[12].0));
    lemma_first_match_skip(s, 0, 13);
}

proof fn lemma_prefix_14(s: Seq<char>)
    requires
        starts_with(s, "rename "@),
    ensures
        first_match(s, 0) == Some(14int),
{
    reveal_strlit("rename ");
    reveal_strlit("create alias ");
    lemma_clash(s, "create alias "@, "rename "@, 0);
    assert(!starts_with(s, op_table()[0].0));
    reveal_strlit("create implication ");
    lemma_clash(s, "create implication "@, "rename "@, 0);
    assert(!starts_with(s, op_table()[1].0));
    reveal_strlit("remove alias ");
    lemma_clash(s, "remove alias "@, "rename "@, 2);
    assert(!starts_with(s, op_table()[2].0));
    reveal_strlit("remove implication ");
    lemma_clash(s, "remove implication "@, "rename "@, 2);
    assert(!starts_with(s, op_table()[3].0));
    reveal_strlit("change category ");
    lemma_clash(s, "change category "@, "rename "@, 0);
    assert(!starts_with(s, op_table()[4].0));
    reveal_strlit("mass update ");
    lemma_clash(s, "mass update "@, "rename "@, 0);
    assert(!starts_with(s, op_table()[5].0));
    reveal_strlit("alias ");
    lemma_clash(s, "alias "@, "rename "@, 0);
    assert(!starts_with(s, op_table()[6].0));
    reveal_strlit("implicate ");
    lemma_clash(s, "implicate "@, "rename "@, 0);
    assert(!starts_with(s, op_table()[7].0));
    reveal_strlit("imply ");
    lemma_clash(s, "imply "@, "rename "@, 0);
    assert(!starts_with(s, op_table()[8].0));
    reveal_strlit("unalias ");
    lemma_clash(s, "unalias "@, "rename "@, 0);
    assert(!starts_with(s, op_table()[9].0));
    reveal_strlit("unimplicate ");
    lemma_clash(s, "unimplicate "@, "rename "@, 0);
    assert(!starts_with(s, op_table()[10].0));
    reveal_strlit("unimply ");
    lemma_clash(s, "unimply "@, "rename "@, 0);
    assert(!starts_with(s, op_table()[11].0));
    reveal_strlit("category ");
    lemma_clash(s, "category "@, "rename "@, 0);
    assert(!starts_with(s, op_table()[12].0));
    reveal_strlit("update ");
    lemma_clash(s, "update "@, "rename "@, 0);
    assert(!starts_with(s, op_table()[13].0));
    lemma_first_match_skip(s, 0, 14);
}

proof fn lemma_prefix_15(s: Seq<char>)
    requires
        starts_with(s, "nuke "@),
    ensures
        first_match(s, 0) == Some(15int),
{
    reveal_strlit("nuke ");
    reveal_strlit("create alias ");
    lemma_clash(s, "create alias "@, "nuke "@, 0);
    assert(!starts_with(s, op_table()[0].0));
    reveal_strlit("create implication ");
    lemma_clash(s, "create implication "@, "nuke "@, 0);
    assert(!starts_with(s, op_table()[1].0));
    reveal_strlit("remove alias ");
    lemma_clash(s, "remove alias "@, "nuke "@, 0);
    assert(!starts_with(s, op_table()[2].0));
    reveal_strlit("remove implication ");
    lemma_clash(s, "remove implication "@, "nuke "@, 0);
    assert(!starts_with(s, op_table()[3].0));
    reveal_strlit("change category ");
    lemma_clash(s, "change category "@, "nuke "@, 0);
    assert(!starts_with(s, op_table()[4].0));
    reveal_strlit("mass update ");
    lemma_clash(s, "mass update "@, "nuke "@, 0);
    assert(!starts_with(s, op_table()[5].0));
    reveal_strlit("alias ");
    lemma_clash(s, "alias "@, "nuke "@, 0);
    assert(!starts_with(s, op_table()[6].0));
    reveal_strlit("implicate ");
    lemma_clash(s, "implicate "@, "nuke "@, 0);
    assert(!starts_with(s, op_table()[7].0));
    reveal_strlit("imply ");
    lemma_clash(s, "imply "@, "nuke "@, 0);
    assert(!starts_with(s, op_table()[8].0));
    reveal_strlit("unalias ");
    lemma_clash(s, "unalias "@, "nuke "@, 0);
    assert(!starts_with(s, op_table()[9].0));
    reveal_strlit("unimplicate ");
    lemma_clash(s, "unimplicate "@, "nuke "@, 0);
    assert(!starts_with(s, op_table()[10].0));
    reveal_strlit("unimply ");
    lemma_clash(s, "unimply "@, "nuke "@, 0);
    assert(!starts_with(s, op_table()[11].0));
    reveal_strlit("category ");
    lemma_clash(s, "category "@, "nuke "@, 0);
    assert(!starts_with(s, op_table()[12].0));
    reveal_strlit("update ");
    lemma_clash(s, "update "@, "nuke "@, 0);
    assert(!starts_with(s, op_table()[13].0));
    reveal_strlit("rename ");
    lemma_clash(s, "rename "@, "nuke "@, 0);
    assert(!starts_with(s, op_table()[14].0));
    lemma_first_match_skip(s, 0, 15);
}

proof fn lemma_prefix_16(s: Seq<char>)
    requires
        starts_with(s, "deprecate "@),
    ensures
        first_match(s, 0) == Some(16int),
{
    reveal_strlit("deprecate ");
    reveal_strlit("create alias ");
    lemma_clash(s, "create alias "@, "deprecate "@, 0);
    assert(!starts_with(s, op_table()[0].0));
    reveal_strlit("create implication ");
    lemma_clash(s, "create implication "@, "deprecate "@, 0);
    assert(!starts_with(s, op_table()[1].0));
    reveal_strlit("remove alias ");
    lemma_clash(s, "remove alias "@, "deprecate "@, 0);
    assert(!starts_with(s, op_table()[2].0));
    reveal_strlit("remove implication ");
    lemma_clash(s, "remove implication "@, "deprecate "@, 0);
    assert(!starts_with(s, op_table()[3].0));
    reveal_strlit("change category ");
    lemma_clash(s, "change category "@, "deprecate "@, 0);
    assert(!starts_with(s, op_table()[4].0));
    reveal_strlit("mass update ");
    lemma_clash(s, "mass update "@, "deprecate "@, 0);
    assert(!starts_with(s, op_table()[5].0));
    reveal_strlit("alias ");
    lemma_clash(s, "alias "@, "deprecate "@, 0);
    assert(!starts_with(s, op_table()[6].0));
    reveal_strlit("implicate ");
    lemma_clash(s, "implicate "@, "deprecate "@, 0);
    assert(!starts_with(s, op_table()[7].0));
    reveal_strlit("imply ");
    lemma_clash(s, "imply "@, "deprecate "@, 0);
    assert(!starts_with(s, op_table()[8].0));
    reveal_strlit("unalias ");
    lemma_clash(s, "unalias "@, "deprecate "@, 0);
    assert(!starts_with(s, op_table()[9].0));
    reveal_strlit("unimplicate ");
    lemma_clash(s, "unimplicate "@, "deprecate "@, 0);
    assert(!starts_with(s, op_table()[10].0));
    reveal_strlit("unimply ");
    lemma_clash(s, "unimply "@, "deprecate "@, 0);
    assert(!starts_with(s, op_table()[11].0));
    reveal_strlit("category ");
    lemma_clash(s, "category "@, "deprecate "@, 0);
    assert(!starts_with(s, op_table()[12].0));
    reveal_strlit("update ");
    lemma_clash(s, "update "@, "deprecate "@, 0);
    assert(!starts_with(s, op_table()[13].0));
    reveal_strlit("rename ");
    lemma_clash(s, "rename "@, "deprecate "@, 0);
    assert(!starts_with(s, op_table()[14].0));
    reveal_strlit("nuke ");
    lemma_clash(s, "nuke "@, "deprecate "@, 0);
    assert(!starts_with(s, op_table()[15].0));
    lemma_first_match_skip(s, 0, 16);
}

proof fn lemma_prefix_17(s: Seq<char>)
    requires
        starts_with(s, "undeprecate "@),
    ensures
        first_match(s, 0) == Some(17int),
{
    reveal_strlit("undeprecate ");
    reveal_strlit("create alias ");
    lemma_clash(s, "create alias "@, "undeprecate "@, 0);
    assert(!starts_with(s, op_table()[0].0));
    reveal_strlit("create implication ");
    lemma_clash(s, "create implication "@, "undeprecate "@, 0);
    assert(!starts_with(s, op_table()[1].0));
    reveal_strlit("remove alias ");
    lemma_clash(s, "remove alias "@, "undeprecate "@, 0);
    assert(!starts_with(s, op_table()[2].0));
    reveal_strlit("remove implication ");
    lemma_clash(s, "remove implication "@, "undeprecate "@, 0);
    assert(!starts_with(s, op_table()[3].0));
    reveal_strlit("change category ");
    lemma_clash(s, "change category "@, "undeprecate "@, 0);
    assert(!starts_with(s, op_table()[4].0));
    reveal_strlit("mass update ");
    lemma_clash(s, "mass update "@, "undeprecate "@, 0);
    assert(!starts_with(s, op_table()[5].0));
    reveal_strlit("alias ");
    lemma_clash(s, "alias "@, "undeprecate "@, 0);
    assert(!starts_with(s, op_table()[6].0));
    reveal_strlit("implicate ");
    lemma_clash(s, "implicate "@, "undeprecate "@, 0);
    assert(!starts_with(s, op_table()[7].0));
    reveal_strlit("imply ");
    lemma_clash(s, "imply "@, "undeprecate "@, 0);
    assert(!starts_with(s, op_table()[8].0));
    reveal_strlit("unalias ");
    lemma_clash(s, "unalias "@, "undeprecate "@, 2);
    assert(!starts_with(s, op_table()[9].0));
    reveal_strlit("unimplicate ");
    lemma_clash(s, "unimplicate "@, "undeprecate "@, 2);
    assert(!starts_with(s, op_table()[10].0));
    reveal_strlit("unimply ");
    lemma_clash(s, "unimply "@, "undeprecate "@, 2);
    assert(!starts_with(s, op_table()[11].0));
    reveal_strlit("category ");
    lemma_clash(s, "category "@, "undeprecate "@, 0);
    assert(!starts_with(s, op_table()[12].0));
    reveal_strlit("update ");
    lemma_clash(s, "update "@, "undeprecate "@, 1);
    assert(!starts_with(s, op_table()[13].0));
    reveal_strlit("rename ");
    lemma_clash(s, "rename "@, "undeprecate "@, 0);
    assert(!starts_with(s, op_table()[14].0));
    reveal_strlit("nuke ");
    lemma_clash(s, "nuke "@, "undeprecate "@, 0);
    assert(!starts_with(s, op_table()[15].0));
    reveal_strlit("deprecate ");
    lemma_clash(s, "deprecate "@, "undeprecate "@, 0);
    assert(!starts_with(s, op_table()[16].0));
    lemma_first_match_skip(s, 0, 17);
}

/// Each operation prefix of a bulk update script stands for its own kind:
/// a line whose lowercased text starts with a prefix reads, where it reads
/// at all, as that prefix's kind, whatever the other prefixes.
pub proof fn lemma_prefix_kinds(line: Seq<char>)
    ensures
        op_of(line) matches Some((kind, _a, _b)) ==> {
            let lower = text_lower(trimmed(line));
            &&& starts_with(lower, "create alias "@) ==> kind == "alias"@
            &&& starts_with(lower, "create implication "@) ==> kind == "implicate"@
            &&& starts_with(lower, "remove alias "@) ==> kind == "unalias"@
            &&& starts_with(lower, "remove implication "@) ==> kind == "unimplicate"@
            &&& starts_with(lower, "change category "@) ==> kind == "category"@
            &&& starts_with(lower, "mass update "@) ==> kind == "update"@
            &&& starts_with(lower, "alias "@) ==> kind == "alias"@
            &&& starts_with(lower, "implicate "@) ==> kind == "implicate"@
            &&& starts_with(lower, "imply "@) ==> kind == "implicate"@
            &&& starts_with(lower, "unalias "@) ==> kind == "unalias"@
            &&& starts_with(lower, "unimplicate "@) ==> kind == "unimplicate"@
            &&& starts_with(lower, "unimply "@) ==> kind == "unimplicate"@
            &&& starts_with(lower, "category "@) ==> kind == "category"@
            &&& starts_with(lower, "update "@) ==> kind == "update"@
            &&& starts_with(lower, "rename "@) ==> kind == "rename"@
            &&& starts_with(lower, "nuke "@) ==> kind == "nuke"@
            &&& starts_with(lower, "deprecate "@) ==> kind == "deprecate"@
            &&& starts_with(lower, "undeprecate "@) ==> kind == "undeprecate"@
        },
{
    if op_of(line) is Some {
        let lower = text_lower(trimmed(line));
        if starts_with(lower, "create alias "@) {
            lemma_prefix_0(lower);
        }
        if starts_with(lower, "create implication "@) {
            lemma_prefix_1(lower);
        }
        if starts_with(lower, "remove alias "@) {
            lemma_prefix_2(lower);
        }
        if starts_with(lower, "remove implication "@) {
            lemma_prefix_3(lower);
        }
        if starts_with(lower, "change category "@) {
            lemma_prefix_4(lower);
        }
        if starts_with(lower, "mass update "@) {
            lemma_prefix_5(lower);
        }
        if starts_with(lower, "alias "@) {
            lemma_prefix_6(lower);
        }
        if starts_with(lower, "implicate "@) {
            lemma_prefix_7(lower);
        }
        if starts_with(lower, "imply "@) {
            lemma_prefix_8(lower);
        }
        if starts_with(lower, "unalias "@) {
            lemma_prefix_9(lower);
        }
        if starts_with(lower, "unimplicate "@) {
            lemma_prefix_10(lower);
        }
        if starts_with(lower, "unimply "@) {
            lemma_prefix_11(lower);
        }
        if starts_with(lower, "category "@) {
            lemma_prefix_12(lower);
        }
        if starts_with(lower, "update "@) {
            lemma_prefix_13(lower);
        }
        if starts_with(lower, "rename "@) {
            lemma_prefix_14(lower);
        }
        if starts_with(lower, "nuke "@) {
            lemma_prefix_15(lower);
        }
        if starts_with(lower, "deprecate "@) {
            lemma_prefix_16(lower);
        }
        if starts_with(lower, "undeprecate "@) {
            lemma_prefix_17(lower);
        }
    }
}

} // verus!
