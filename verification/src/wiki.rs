//! Wiki pages: the excerpt the site shows for a tag and the tags its page
//! links to.

use regex::Regex;
use rustc_hash::FxHashSet;
use vstd::prelude::*;

use crate::fxmap::{seen_insert, seen_new};
use crate::history::{node_named, node_of_name};
use crate::tags::{name_views, Tags};
use crate::text::{
    chars_of, is_ws, line_end, lowercase, lowercase_of, push_char, starts_at, string_of,
    text_lines, trim_range, trimmed, ws,
};

verus! {

/// `sep` occurs in `s` at `j`.
pub open spec fn match_at(s: Seq<char>, sep: Seq<char>, j: int) -> bool {
    0 <= j && j + sep.len() <= s.len() && s.subrange(j, j + sep.len()) == sep
}

/// Where `sep` next occurs in `s`, from `i` on.
pub open spec fn next_match(s: Seq<char>, sep: Seq<char>, i: int) -> Option<int>
    decreases s.len() + 1 - i,
{
    if i < 0 || i + sep.len() > s.len() {
        None
    } else if match_at(s, sep, i) {
        Some(i)
    } else {
        next_match(s, sep, i + 1)
    }
}

pub proof fn lemma_next_match(s: Seq<char>, sep: Seq<char>, i: int)
    requires
        0 <= i,
    ensures
        next_match(s, sep, i) matches Some(j) ==> i <= j && match_at(s, sep, j) && forall|k: int|
            i <= k < j ==> !match_at(s, sep, k),
        next_match(s, sep, i) is None ==> forall|k: int| i <= k ==> !match_at(s, sep, k),
    decreases s.len() + 1 - i,
{
    if !(i < 0 || i + sep.len() > s.len()) && !match_at(s, sep, i) {
        lemma_next_match(s, sep, i + 1);
    }
}

/// The pieces of `s` from `i` on between the places where `sep` occurs, as
/// `str::split` yields them: an empty piece where two meet or at either end.
pub open spec fn split_from(s: Seq<char>, sep: Seq<char>, i: int) -> Seq<Seq<char>>
    decreases s.len() + 1 - i,
{
    if sep.len() == 0 || i < 0 || i > s.len() {
        seq![]
    } else {
        match next_match(s, sep, i) {
            Some(j) => {
                proof {
                    lemma_next_match(s, sep, i);
                }
                seq![s.subrange(i, j)] + split_from(s, sep, j + sep.len())
            },
            None => seq![s.subrange(i, s.len() as int)],
        }
    }
}

/// The pieces of `s` between the places where `sep` occurs.
pub fn split_on(s: &str, sep: &str) -> (out: Vec<String>)
    requires
        sep@.len() > 0,
    ensures
        out@.len() == split_from(s@, sep@, 0).len(),
        forall|k: int| 0 <= k < out@.len() ==> (#[trigger] out@[k])@ == split_from(s@, sep@, 0)[k],
{
    let cs = chars_of(s);
    let sc = chars_of(sep);
    let n = cs.len();
    let m = sc.len();
    let mut out: Vec<String> = Vec::new();
    let ghost mut done: Seq<Seq<char>> = seq![];
    let mut start: usize = 0;
    loop
        invariant
            cs@ == s@,
            sc@ == sep@,
            n == cs@.len(),
            m == sc@.len(),
            m > 0,
            start <= n,
            split_from(s@, sep@, 0) == done + split_from(s@, sep@, start as int),
            out@.len() == done.len(),
            forall|k: int| 0 <= k < out@.len() ==> (#[trigger] out@[k])@ == done[k],
        decreases n + 1 - start,
    {
        let mut j: usize = start;
        while n - j >= m && !starts_at(&cs, j, &sc)
            invariant
                start <= j <= n,
                n == cs@.len(),
                m == sc@.len(),
                m > 0,
                next_match(s@, sep@, start as int) == next_match(s@, sep@, j as int),
                cs@ == s@,
                sc@ == sep@,
            decreases n - j,
        {
            assert(!match_at(s@, sep@, j as int)) by {
                assert(cs@.skip(j as int).take(m as int) =~= cs@.subrange(j as int, j + m));
            }
            j = j + 1;
        }
        let ghost piece_from = start as int;
        if n - j >= m {
            assert(match_at(s@, sep@, j as int)) by {
                assert(cs@.skip(j as int).take(m as int) =~= cs@.subrange(j as int, j + m));
            }
            let piece = string_of(&cs, start, j);
            proof {
                assert(split_from(s@, sep@, start as int) == seq![s@.subrange(start as int, j as int)]
                    + split_from(s@, sep@, j + m));
                assert(split_from(s@, sep@, 0) =~= done.push(piece@) + split_from(s@, sep@, j + m));
                done = done.push(piece@);
            }
            out.push(piece);
            start = j + m;
        } else {
            assert(next_match(s@, sep@, j as int) is None);
            let piece = string_of(&cs, start, n);
            proof {
                assert(split_from(s@, sep@, start as int) == seq![s@.subrange(start as int, n as int)]);
                assert(split_from(s@, sep@, 0) =~= done.push(piece@));
                done = done.push(piece@);
            }
            out.push(piece);
            return out;
        }
    }
}

/// The characters of each string.
pub open spec fn texts(v: Seq<String>) -> Seq<Seq<char>> {
    v.map_values(|s: String| s@)
}

proof fn lemma_texts_push(v: Seq<String>, x: String)
    ensures
        texts(v.push(x)) == texts(v).push(x@),
{
    assert(texts(v.push(x)) =~= texts(v).push(x@));
}

/// The lines of a text, as `str::lines` yields them.
pub fn lines_of(s: &str) -> (out: Vec<String>)
    ensures
        out@.len() == text_lines(s@, 0).len(),
        forall|k: int| 0 <= k < out@.len() ==> (#[trigger] out@[k])@ == text_lines(s@, 0)[k],
{
    let cs = chars_of(s);
    let n = cs.len();
    let mut out: Vec<String> = Vec::new();
    let ghost mut done: Seq<Seq<char>> = seq![];
    let mut i: usize = 0;
    while i < n
        invariant
            cs@ == s@,
            n == cs@.len(),
            i <= n,
            text_lines(cs@, 0) == done + text_lines(cs@, i as int),
            out@.len() == done.len(),
            forall|k: int| 0 <= k < out@.len() ==> (#[trigger] out@[k])@ == done[k],
        decreases n - i,
    {
        let mut e: usize = i;
        while e < n && cs[e] != '\n'
            invariant
                i <= e <= n,
                n == cs@.len(),
                line_end(cs@, i as int) == line_end(cs@, e as int),
            decreases n - e,
        {
            e = e + 1;
        }
        let hi = if e < n && e > i && cs[e - 1] == '\r' {
            e - 1
        } else {
            e
        };
        let line = string_of(&cs, i, hi);
        proof {
            let raw = cs@.subrange(i as int, e as int);
            if e < n && e > i {
                assert(raw.last() == cs@[e - 1]);
            }
            if hi < e {
                assert(line@ =~= raw.drop_last());
            } else {
                assert(line@ =~= raw);
            }
            assert(text_lines(cs@, i as int) == seq![line@] + text_lines(cs@, e + 1));
            assert(text_lines(cs@, 0) =~= done.push(line@) + text_lines(cs@, e + 1));
            done = done.push(line@);
        }
        out.push(line);
        i = if e < n {
            e + 1
        } else {
            n
        };
    }
    proof {
        assert(done + text_lines(cs@, i as int) =~= done);
    }
    out
}

/// A character that `trim_start_matches(['*', '#', ' '])` strips: a list or
/// heading mark, or a space.
pub open spec fn is_mark(c: char) -> bool {
    c == '*' || c == '#' || c == ' '
}

/// The text with its leading marks removed.
pub open spec fn strip_marks(s: Seq<char>) -> Seq<char>
    decreases s.len(),
{
    if s.len() > 0 && is_mark(s[0]) {
        strip_marks(s.drop_first())
    } else {
        s
    }
}

/// Texts joined with one space between each two.
pub open spec fn joined(parts: Seq<Seq<char>>) -> Seq<char>
    decreases parts.len(),
{
    if parts.len() == 0 {
        seq![]
    } else if parts.len() == 1 {
        parts[0]
    } else {
        joined(parts.drop_last()) + seq![' '] + parts.last()
    }
}

/// The words of a text, as `split_whitespace` yields them: its runs of
/// characters that are not whitespace.
pub open spec fn words(s: Seq<char>) -> Seq<Seq<char>>
    decreases s.len(),
{
    if s.len() == 0 {
        seq![]
    } else {
        let w = words(s.drop_last());
        let c = s.last();
        if is_ws(c) {
            w
        } else if s.len() >= 2 && !is_ws(s[s.len() - 2]) {
            w.update(w.len() - 1, w.last().push(c))
        } else {
            w.push(seq![c])
        }
    }
}

proof fn lemma_words_open(s: Seq<char>)
    requires
        s.len() > 0,
        !is_ws(s.last()),
    ensures
        words(s).len() > 0,
    decreases s.len(),
{
    if s.len() >= 2 && !is_ws(s[s.len() - 2]) {
        assert(s.drop_last().last() == s[s.len() - 2]);
        lemma_words_open(s.drop_last());
    }
}

proof fn lemma_joined_grows(w: Seq<Seq<char>>, c: char)
    requires
        w.len() > 0,
    ensures
        joined(w.update(w.len() - 1, w.last().push(c))) == joined(w).push(c),
{
    let v = w.update(w.len() - 1, w.last().push(c));
    if w.len() == 1 {
    } else {
        assert(v.drop_last() =~= w.drop_last());
    }
}

/// A text with its whitespace runs squeezed to single spaces and none at
/// either end: its words joined by spaces.
pub fn squeeze(s: &str) -> (out: String)
    ensures
        out@ == joined(words(s@)),
{
    let cs = chars_of(s);
    let n = cs.len();
    let mut out = String::new();
    let mut i: usize = 0;
    while i < n
        invariant
            cs@ == s@,
            n == cs@.len(),
            i <= n,
            out@ == joined(words(cs@.take(i as int))),
            out@.len() == 0 <==> words(cs@.take(i as int)).len() == 0,
        decreases n - i,
    {
        let c = cs[i];
        let ghost p = cs@.take(i as int);
        let ghost q = cs@.take(i + 1);
        proof {
            assert(q.drop_last() =~= p);
            assert(q.last() == c);
        }
        if !ws(c) {
            if i > 0 && !ws(cs[i - 1]) {
                proof {
                    assert(q[q.len() - 2] == cs@[i - 1]);
                    assert(p.last() == cs@[i - 1]);
                    lemma_words_open(p);
                    lemma_joined_grows(words(p), c);
                }
                push_char(&mut out, c);
            } else {
                proof {
                    if i > 0 {
                        assert(q[q.len() - 2] == cs@[i - 1]);
                    }
                    let w = words(p);
                    assert(words(q) == w.push(seq![c]));
                    assert(w.push(seq![c]).drop_last() =~= w);
                }
                if !out.as_str().is_empty() {
                    push_char(&mut out, ' ');
                }
                push_char(&mut out, c);
                proof {
                    let w = words(p);
                    if w.len() == 0 {
                        assert(out@ =~= seq![c]);
                    } else {
                        assert(out@ =~= joined(w) + seq![' '] + seq![c]);
                    }
                }
            }
        }
        i = i + 1;
    }
    proof {
        assert(cs@.take(n as int) =~= s@);
    }
    out
}

/// The tidied form of a wiki line: list and heading marks and spaces dropped
/// from its front, then whitespace trimmed from both ends.
pub fn tidy_line(line: &str) -> (out: String)
    ensures
        out@ == trimmed(strip_marks(line@)),
{
    let cs = chars_of(line);
    let n = cs.len();
    let mut i: usize = 0;
    assert(cs@.skip(0) =~= cs@);
    while i < n && (cs[i] == '*' || cs[i] == '#' || cs[i] == ' ')
        invariant
            i <= n == cs@.len(),
            cs@ == line@,
            strip_marks(cs@) == strip_marks(cs@.skip(i as int)),
        decreases n - i,
    {
        proof {
            assert(cs@.skip(i as int).drop_first() =~= cs@.skip(i + 1));
        }
        i = i + 1;
    }
    proof {
        assert(cs@.skip(0) =~= cs@);
        assert(cs@.skip(i as int) =~= cs@.subrange(i as int, n as int));
        if i < n {
            assert(cs@.skip(i as int)[0] == cs@[i as int]);
        }
    }
    let (a, b) = trim_range(&cs, i, n);
    string_of(&cs, a, b)
}

/// The lines of a paragraph that keep some text once tidied, tidied.
pub open spec fn kept_lines(lines: Seq<Seq<char>>) -> Seq<Seq<char>>
    decreases lines.len(),
{
    if lines.len() == 0 {
        seq![]
    } else {
        let rest = kept_lines(lines.drop_last());
        let t = trimmed(strip_marks(lines.last()));
        if t.len() > 0 {
            rest.push(t)
        } else {
            rest
        }
    }
}

/// Texts joined with a space between each two.
pub fn join_spaced(parts: &Vec<String>) -> (out: String)
    ensures
        out@ == joined(texts(parts@)),
{
    let ghost views = texts(parts@);
    let mut out = String::new();
    let mut k: usize = 0;
    while k < parts.len()
        invariant
            k <= parts@.len(),
            views == texts(parts@),
            out@ == joined(views.take(k as int)),
        decreases parts@.len() - k,
    {
        let p = chars_of(parts[k].as_str());
        let ghost before = out@;
        if k > 0 {
            push_char(&mut out, ' ');
        }
        let mut j: usize = 0;
        while j < p.len()
            invariant
                j <= p@.len(),
                out@ == (if k > 0 {
                    before + seq![' ']
                } else {
                    before
                }) + p@.take(j as int),
            decreases p@.len() - j,
        {
            push_char(&mut out, p[j]);
            proof {
                assert(p@.take(j + 1) =~= p@.take(j as int).push(p@[j as int]));
            }
            j = j + 1;
        }
        proof {
            let t = views.take(k + 1);
            assert(t.drop_last() =~= views.take(k as int));
            assert(t.last() == p@);
            assert(p@.take(p@.len() as int) =~= p@);
            if k == 0 {
                assert(before =~= seq![]);
                assert(out@ =~= p@);
            } else {
                assert(out@ =~= before + seq![' '] + p@);
            }
        }
        k = k + 1;
    }
    proof {
        assert(views.take(parts@.len() as int) =~= views);
    }
    out
}

/// Where the last space of a text is.
pub open spec fn last_space(c: Seq<char>) -> Option<int>
    decreases c.len(),
{
    if c.len() == 0 {
        None
    } else if c.last() == ' ' {
        Some(c.len() - 1)
    } else {
        last_space(c.drop_last())
    }
}

/// The first `max` characters of a text, cut back to before their last space
/// when they hold one, and an ellipsis after.
pub open spec fn shortened(text: Seq<char>, max: int) -> Seq<char> {
    let c = text.take(max);
    (match last_space(c) {
        Some(k) => c.take(k),
        None => c,
    }) + seq!['.', '.', '.']
}

/// The excerpt a cleaned paragraph gives: none when it is under eight
/// characters; the whole when it is at most `max`; else shortened.
pub open spec fn paragraph_excerpt(text: Seq<char>, max: int) -> Option<Seq<char>> {
    if text.len() < 8 {
        None
    } else if text.len() <= max {
        Some(text)
    } else {
        Some(shortened(text, max))
    }
}

/// The excerpt of one cleaned paragraph.
pub fn excerpt_of(text: String, max_chars: usize) -> (r: Option<String>)
    ensures
        r is Some == paragraph_excerpt(text@, max_chars as int) is Some,
        r matches Some(e) ==> e@ == paragraph_excerpt(text@, max_chars as int)->0,
{
    let cs = chars_of(text.as_str());
    let n = cs.len();
    if n < 8 {
        return None;
    }
    if n <= max_chars {
        return Some(text);
    }
    let ghost c = cs@.take(max_chars as int);
    let mut k: usize = max_chars;
    assert(c.take(max_chars as int) =~= c);
    while k > 0 && cs[k - 1] != ' '
        invariant
            k <= max_chars < n == cs@.len(),
            c == cs@.take(max_chars as int),
            last_space(c) == last_space(c.take(k as int)),
        decreases k,
    {
        proof {
            let t = c.take(k as int);
            assert(t.last() == cs@[k - 1]);
            assert(t.drop_last() =~= c.take(k - 1));
        }
        k = k - 1;
    }
    let cut = if k > 0 {
        proof {
            let t = c.take(k as int);
            assert(t.last() == cs@[k - 1]);
            assert(last_space(t) == Some(k - 1));
        }
        k - 1
    } else {
        proof {
            assert(c.take(0) =~= seq![]);
        }
        max_chars
    };
    let mut out = string_of(&cs, 0, cut);
    push_char(&mut out, '.');
    push_char(&mut out, '.');
    push_char(&mut out, '.');
    proof {
        assert(c.take(max_chars as int) =~= c);
        if k > 0 {
            assert(c.take(k - 1) =~= cs@.subrange(0, k - 1));
        } else {
            assert(c =~= cs@.subrange(0, max_chars as int));
        }
        assert(out@ =~= shortened(text@, max_chars as int));
    }
    Some(out)
}

/// The compiled regular expressions of the regex crate, carried through
/// opaquely.
#[verifier::external_type_specification]
#[verifier::external_body]
pub struct ExRegex(Regex);

/// The patterns that find DText markup: a wiki link with an optional label,
/// a named link, a markup tag, a heading mark, a thumbnail reference and a
/// search link, in that order.
pub open spec fn dtext_pattern(k: int) -> Seq<char> {
    if k == 0 {
        r"\[\[([^\]|]+)(?:\|([^\]]*))?\]\]"@
    } else if k == 1 {
        r#""([^"]+)":(?:https?://\S+|/\S+)"#@
    } else if k == 2 {
        r"\[/?[a-zA-Z]+(?:[=,][^\]]*)?\]"@
    } else if k == 3 {
        r"(?m)^h[1-6]\.\s*"@
    } else if k == 4 {
        r"thumb #\d+"@
    } else {
        r"\{\{([^}]+)\}\}"@
    }
}

fn pattern_text(k: usize) -> (p: &'static str)
    requires
        k < 6,
    ensures
        p@ == dtext_pattern(k as int),
{
    match k {
        0 => r"\[\[([^\]|]+)(?:\|([^\]]*))?\]\]",
        1 => r#""([^"]+)":(?:https?://\S+|/\S+)"#,
        2 => r"\[/?[a-zA-Z]+(?:[=,][^\]]*)?\]",
        3 => r"(?m)^h[1-6]\.\s*",
        4 => r"thumb #\d+",
        _ => r"\{\{([^}]+)\}\}",
    }
}

/// Whether `Regex::new` accepts `pattern`: a function of the pattern alone,
/// by the regex crate's grammar and its default limits.
pub uninterp spec fn regex_compiles(pattern: Seq<char>) -> bool;

/// Calls `Regex::new` (regex). The contract names when it succeeds, which
/// depends on the pattern alone; the grammar itself is not restated, and
/// nothing is claimed of the compiled value beyond that it is there.
#[verifier::external_body]
fn compile(pattern: &str) -> (r: Option<Regex>)
    ensures
        r is Some <==> regex_compiles(pattern@),
{
    Regex::new(pattern).ok()
}

/// The regular expressions that read DText, compiled once: pattern `k`
/// from `dtext_pattern(k)`, by `Dtext::new` alone.
pub struct Dtext {
    patterns: Vec<Regex>,
}

impl Dtext {
    /// All six patterns are there.
    #[verifier::type_invariant]
    spec fn ready(self) -> bool {
        self.patterns@.len() == 6
    }

    /// Compiles the patterns, or answers nothing if one fails to compile.
    pub fn new() -> (r: Option<Dtext>)
        ensures
            r is Some <==> forall|k: int| 0 <= k < 6 ==> #[trigger] regex_compiles(dtext_pattern(k)),
    {
        let mut patterns: Vec<Regex> = Vec::new();
        let mut k: usize = 0;
        while k < 6
            invariant
                k <= 6,
                patterns@.len() == k,
                forall|j: int| 0 <= j < k ==> #[trigger] regex_compiles(dtext_pattern(j)),
            decreases 6 - k,
        {
            match compile(pattern_text(k)) {
                Some(re) => patterns.push(re),
                None => return None,
            }
            k = k + 1;
        }
        Some(Dtext { patterns })
    }
}

/// What `Regex::replace_all` with a text replacement gives: every match of
/// `pattern` in `text` replaced by `rep`, its `$` group references expanded.
pub uninterp spec fn regex_replace_all(pattern: Seq<char>, text: Seq<char>, rep: Seq<char>) -> Seq<char>;

/// Calls `Regex::replace_all` (regex) with a text replacement, using pattern
/// `k` of `d`. The contract names the result, a function of the pattern, the
/// text and the replacement; it rests on `d`'s patterns being compiled by
/// `Dtext::new` from `dtext_pattern`, which its private field ensures.
#[verifier::external_body]
fn replace_all(d: &Dtext, k: usize, text: &str, rep: &str) -> (r: String)
    requires
        d.patterns@.len() == 6,
        k < 6,
    ensures
        r@ == regex_replace_all(dtext_pattern(k as int), text@, rep@),
{
    d.patterns[k].replace_all(text, rep).into_owned()
}

/// The text a wiki link shows: its label when it has one, else its target.
pub fn link_label(target: &str, label: Option<&str>) -> (r: String)
    ensures
        r@ == (match label {
            Some(l) => l@,
            None => target@,
        }),
{
    match label {
        Some(l) => l.to_owned(),
        None => target.to_owned(),
    }
}

/// What `Regex::replace_all` with `link_label` as the replacement gives:
/// every match of `pattern` in `text` replaced by what `link_label` makes of
/// its first and second groups.
pub uninterp spec fn regex_replace_labels(pattern: Seq<char>, text: Seq<char>) -> Seq<char>;

/// Calls `Regex::replace_all` (regex) on the wiki link pattern of `d`, each
/// match replaced by `link_label` of its groups. The contract names the
/// result, a function of the pattern and the text.
#[verifier::external_body]
fn replace_links(d: &Dtext, text: &str) -> (r: String)
    requires
        d.patterns@.len() == 6,
    ensures
        r@ == regex_replace_labels(dtext_pattern(0), text@),
{
    d.patterns[0]
        .replace_all(text, |c: &regex::Captures| link_label(c.get(1).map_or("", |m| m.as_str()), c.get(2).map(|m| m.as_str())))
        .into_owned()
}

/// What `Regex::captures_iter` yields of the first group: the text of the
/// first group of each match of `pattern` in `text`, in order.
pub uninterp spec fn regex_first_groups(pattern: Seq<char>, text: Seq<char>) -> Seq<Seq<char>>;

/// Calls `Regex::captures_iter` (regex) on the wiki link pattern of `d` and
/// copies out the first group of each match. The contract names the result, a
/// function of the pattern and the text.
#[verifier::external_body]
fn first_groups(d: &Dtext, text: &str) -> (r: Vec<String>)
    requires
        d.patterns@.len() == 6,
    ensures
        r@.len() == regex_first_groups(dtext_pattern(0), text@).len(),
        forall|k: int| 0 <= k < r@.len() ==> (#[trigger] r@[k])@ == regex_first_groups(dtext_pattern(0), text@)[k],
{
    d.patterns[0].captures_iter(text).map(|c| c.get(1).map_or(String::new(), |m| m.as_str().to_string())).collect()
}

/// A paragraph's DText markup turned into plain text: links to their labels,
/// named and search links to their text, and tags, heading marks and
/// thumbnails dropped, in that order.
pub open spec fn dtext_plain(p: Seq<char>) -> Seq<char> {
    let t = regex_replace_labels(dtext_pattern(0), p);
    let t = regex_replace_all(dtext_pattern(1), t, "$1"@);
    let t = regex_replace_all(dtext_pattern(5), t, "$1"@);
    let t = regex_replace_all(dtext_pattern(2), t, ""@);
    let t = regex_replace_all(dtext_pattern(3), t, ""@);
    regex_replace_all(dtext_pattern(4), t, ""@)
}

/// A paragraph as the excerpt reads it: plain text, its lines tidied and
/// joined, its whitespace squeezed.
pub open spec fn cleaned(p: Seq<char>) -> Seq<char> {
    joined(words(joined(kept_lines(text_lines(dtext_plain(p), 0)))))
}

/// Cleans one paragraph.
fn clean(d: &Dtext, p: &str) -> (out: String)
    requires
        d.patterns@.len() == 6,
    ensures
        out@ == cleaned(p@),
{
    let t = replace_links(d, p);
    let t = replace_all(d, 1, t.as_str(), "$1");
    let t = replace_all(d, 5, t.as_str(), "$1");
    let t = replace_all(d, 2, t.as_str(), "");
    let t = replace_all(d, 3, t.as_str(), "");
    let t = replace_all(d, 4, t.as_str(), "");
    let lines = lines_of(t.as_str());
    let ghost all = text_lines(t@, 0);
    let mut kept: Vec<String> = Vec::new();
    let mut k: usize = 0;
    while k < lines.len()
        invariant
            k <= lines@.len(),
            lines@.len() == all.len(),
            forall|x: int| 0 <= x < lines@.len() ==> (#[trigger] lines@[x])@ == all[x],
            texts(kept@) == kept_lines(all.take(k as int)),
        decreases lines@.len() - k,
    {
        let tidy = tidy_line(lines[k].as_str());
        let ghost before = texts(kept@);
        proof {
            let t2 = all.take(k + 1);
            assert(t2.drop_last() =~= all.take(k as int));
            assert(t2.last() == lines@[k as int]@);
        }
        if !tidy.as_str().is_empty() {
            let ghost prev = kept@;
            kept.push(tidy);
            proof {
                lemma_texts_push(prev, tidy);
            }
        }
        k = k + 1;
    }
    proof {
        assert(all.take(lines@.len() as int) =~= all);
    }
    let j = join_spaced(&kept);
    squeeze(j.as_str())
}

/// Pieces split further at `"\n\n"`, in order.
pub open spec fn split_each(pieces: Seq<Seq<char>>) -> Seq<Seq<char>>
    decreases pieces.len(),
{
    if pieces.len() == 0 {
        seq![]
    } else {
        split_each(pieces.drop_last()) + split_from(pieces.last(), "\n\n"@, 0)
    }
}

/// The paragraphs of a wiki page: its text split at blank lines, written
/// with either line ending.
pub open spec fn wiki_paragraphs(body: Seq<char>) -> Seq<Seq<char>> {
    split_each(split_from(body, "\r\n\r\n"@, 0))
}

proof fn lemma_match_shift(p: Seq<char>, s: Seq<char>, sep: Seq<char>, j: int)
    requires
        0 <= j,
    ensures
        match_at(p + s, sep, p.len() + j) == match_at(s, sep, j),
{
    if j + sep.len() <= s.len() {
        assert((p + s).subrange(p.len() + j, p.len() + j + sep.len()) =~= s.subrange(j, j + sep.len()));
    }
}

proof fn lemma_next_match_shift(p: Seq<char>, s: Seq<char>, sep: Seq<char>, i: int)
    requires
        0 <= i,
    ensures
        next_match(p + s, sep, p.len() + i) == match next_match(s, sep, i) {
            Some(j) => Some(p.len() + j),
            None => None,
        },
    decreases s.len() + 1 - i,
{
    lemma_match_shift(p, s, sep, i);
    if i + sep.len() <= s.len() && !match_at(s, sep, i) {
        lemma_next_match_shift(p, s, sep, i + 1);
        assert(p.len() + i + 1 == p.len() + (i + 1));
    }
}

proof fn lemma_split_shift(p: Seq<char>, s: Seq<char>, sep: Seq<char>, i: int)
    requires
        0 <= i,
    ensures
        split_from(p + s, sep, p.len() + i) == split_from(s, sep, i),
    decreases s.len() + 1 - i,
{
    if sep.len() > 0 && i <= s.len() {
        lemma_next_match_shift(p, s, sep, i);
        lemma_next_match(s, sep, i);
        match next_match(s, sep, i) {
            Some(j) => {
                lemma_split_shift(p, s, sep, j + sep.len());
                assert((p + s).subrange(p.len() + i, p.len() + j) =~= s.subrange(i, j));
                assert(p.len() + j + sep.len() == p.len() + (j + sep.len()));
            },
            None => {
                assert((p + s).subrange(p.len() + i, (p + s).len() as int) =~= s.subrange(i, s.len() as int));
            },
        }
    }
}

proof fn lemma_split_each_append(a: Seq<Seq<char>>, b: Seq<Seq<char>>)
    ensures
        split_each(a + b) == split_each(a) + split_each(b),
    decreases b.len(),
{
    if b.len() == 0 {
        assert(a + b =~= a);
        assert(split_each(a) + split_each(b) =~= split_each(a));
    } else {
        lemma_split_each_append(a, b.drop_last());
        assert((a + b).drop_last() =~= a + b.drop_last());
        assert((a + b).last() == b.last());
        assert(split_each(a) + split_each(b.drop_last()) + split_from(b.last(), "\n\n"@, 0) =~= split_each(a) + (
        split_each(b.drop_last()) + split_from(b.last(), "\n\n"@, 0)));
    }
}

proof fn lemma_sub_match(s: Seq<char>, sep: Seq<char>, i: int, j: int, k: int)
    requires
        0 <= i <= j <= s.len(),
        match_at(s.subrange(i, j), sep, k),
    ensures
        match_at(s, sep, i + k),
        i + k + sep.len() <= j,
{
    assert(s.subrange(i, j).subrange(k, k + sep.len()) =~= s.subrange(i + k, i + k + sep.len()));
}

proof fn lemma_split_whole(s: Seq<char>, sep: Seq<char>)
    requires
        sep.len() > 0,
        forall|k: int| !match_at(s, sep, k),
    ensures
        split_from(s, sep, 0) == seq![s],
{
    lemma_next_match(s, sep, 0);
    assert(s.subrange(0, s.len() as int) =~= s);
}

/// No piece of `s` split at `sep` from `i` on holds `sep`, and none holds
/// `other` where `s` holds none from `i` on.
proof fn lemma_pieces_clear(s: Seq<char>, sep: Seq<char>, other: Seq<char>, i: int)
    requires
        0 <= i,
    ensures
        forall|x: int, k: int|
            0 <= x < split_from(s, sep, i).len() ==> !#[trigger] match_at(split_from(s, sep, i)[x], sep, k),
        (forall|k: int| i <= k ==> !match_at(s, other, k)) ==> forall|x: int, k: int|
            0 <= x < split_from(s, sep, i).len() ==> !#[trigger] match_at(split_from(s, sep, i)[x], other, k),
    decreases s.len() + 1 - i,
{
    if sep.len() > 0 && i <= s.len() {
        lemma_next_match(s, sep, i);
        let all = split_from(s, sep, i);
        match next_match(s, sep, i) {
            Some(j) => {
                lemma_pieces_clear(s, sep, other, j + sep.len());
                let rest = split_from(s, sep, j + sep.len());
                assert(all == seq![s.subrange(i, j)] + rest);
                assert forall|x: int, k: int| 0 <= x < all.len() implies !#[trigger] match_at(all[x], sep, k) by {
                    if x == 0 {
                        if match_at(all[x], sep, k) {
                            lemma_sub_match(s, sep, i, j, k);
                        }
                    } else {
                        assert(all[x] == rest[x - 1]);
                    }
                }
                if forall|k: int| i <= k ==> !match_at(s, other, k) {
                    assert forall|x: int, k: int| 0 <= x < all.len() implies !#[trigger] match_at(all[x], other, k) by {
                        if x == 0 {
                            if match_at(all[x], other, k) {
                                lemma_sub_match(s, other, i, j, k);
                            }
                        } else {
                            assert(all[x] == rest[x - 1]);
                        }
                    }
                }
            },
            None => {
                assert forall|x: int, k: int| 0 <= x < all.len() implies !#[trigger] match_at(all[x], sep, k) by {
                    if match_at(all[x], sep, k) {
                        lemma_sub_match(s, sep, i, s.len() as int, k);
                    }
                }
                if forall|k: int| i <= k ==> !match_at(s, other, k) {
                    assert forall|x: int, k: int| 0 <= x < all.len() implies !#[trigger] match_at(all[x], other, k) by {
                        if match_at(all[x], other, k) {
                            lemma_sub_match(s, other, i, s.len() as int, k);
                        }
                    }
                }
            },
        }
    }
}

proof fn lemma_each_clear(pieces: Seq<Seq<char>>)
    requires
        forall|x: int, k: int| 0 <= x < pieces.len() ==> !#[trigger] match_at(pieces[x], "\r\n\r\n"@, k),
    ensures
        forall|x: int, k: int|
            0 <= x < split_each(pieces).len() ==> !#[trigger] match_at(split_each(pieces)[x], "\r\n\r\n"@, k),
        forall|x: int, k: int|
            0 <= x < split_each(pieces).len() ==> !#[trigger] match_at(split_each(pieces)[x], "\n\n"@, k),
    decreases pieces.len(),
{
    if pieces.len() > 0 {
        let front = pieces.drop_last();
        assert forall|x: int, k: int| 0 <= x < front.len() implies !#[trigger] match_at(front[x], "\r\n\r\n"@, k) by {
            assert(front[x] == pieces[x]);
        }
        lemma_each_clear(front);
        let last = pieces.last();
        assert(forall|k: int| 0 <= k ==> !match_at(last, "\r\n\r\n"@, k));
        lemma_pieces_clear(last, "\n\n"@, "\r\n\r\n"@, 0);
        let a = split_each(front);
        let b = split_from(last, "\n\n"@, 0);
        assert(split_each(pieces) == a + b);
        assert forall|x: int, k: int| 0 <= x < split_each(pieces).len() implies !#[trigger] match_at(
            split_each(pieces)[x],
            "\r\n\r\n"@,
            k,
        ) && !match_at(split_each(pieces)[x], "\n\n"@, k) by {
            if x < a.len() {
                assert(split_each(pieces)[x] == a[x]);
            } else {
                assert(split_each(pieces)[x] == b[x - a.len()]);
            }
        }
    }
}

/// No paragraph of a page holds a blank line, whichever line ending writes it.
pub proof fn lemma_paragraphs_hold_no_blank_line(body: Seq<char>)
    ensures
        forall|x: int, k: int|
            0 <= x < wiki_paragraphs(body).len() ==> !#[trigger] match_at(wiki_paragraphs(body)[x], "\r\n\r\n"@, k),
        forall|x: int, k: int|
            0 <= x < wiki_paragraphs(body).len() ==> !#[trigger] match_at(wiki_paragraphs(body)[x], "\n\n"@, k),
{
    lemma_pieces_clear(body, "\r\n\r\n"@, "\r\n\r\n"@, 0);
    lemma_each_clear(split_from(body, "\r\n\r\n"@, 0));
}

/// A page with no blank line is one paragraph.
pub proof fn lemma_one_paragraph(body: Seq<char>)
    requires
        forall|k: int| !match_at(body, "\r\n\r\n"@, k),
        forall|k: int| !match_at(body, "\n\n"@, k),
    ensures
        wiki_paragraphs(body) == seq![body],
{
    reveal_strlit("\r\n\r\n");
    reveal_strlit("\n\n");
    lemma_split_whole(body, "\r\n\r\n"@);
    lemma_split_whole(body, "\n\n"@);
    let one: Seq<Seq<char>> = seq![body];
    assert(one.drop_last() =~= Seq::<Seq<char>>::empty());
    assert(split_each(one.drop_last()) == Seq::<Seq<char>>::empty());
    assert(split_each(one) == Seq::<Seq<char>>::empty() + seq![body]);
    assert(Seq::<Seq<char>>::empty() + seq![body] =~= seq![body]);
}

/// A CRLF blank line parts a page: where the first one starts right after
/// `a`, the paragraphs of the page are those of `a` followed by those of the
/// rest.
pub proof fn lemma_paragraphs_part_at_crlf(a: Seq<char>, b: Seq<char>)
    requires
        forall|k: int| 0 <= k < a.len() ==> !match_at(a + "\r\n\r\n"@ + b, "\r\n\r\n"@, k),
    ensures
        wiki_paragraphs(a + "\r\n\r\n"@ + b) == wiki_paragraphs(a) + wiki_paragraphs(b),
{
    reveal_strlit("\r\n\r\n");
    let sep = "\r\n\r\n"@;
    let s = a + sep + b;
    assert(s.subrange(a.len() as int, a.len() + 4int) =~= sep);
    assert(match_at(s, sep, a.len() as int));
    lemma_next_match(s, sep, 0);
    assert(next_match(s, sep, 0) == Some(a.len() as int));
    assert(s.subrange(0, a.len() as int) =~= a);
    lemma_split_shift(a + sep, b, sep, 0);
    assert(split_from(s, sep, 0) == seq![a] + split_from(b, sep, 0));
    lemma_next_match(a, sep, 0);
    assert forall|j: int| !match_at(a, sep, j) by {
        if match_at(a, sep, j) {
            assert(s.subrange(j, j + 4) =~= a.subrange(j, j + 4));
            assert(match_at(s, sep, j));
            assert(0 <= j < a.len());
        }
    }
    lemma_split_whole(a, sep);
    lemma_split_each_append(seq![a], split_from(b, sep, 0));
}

/// The excerpt of a page: that of its first paragraph that gives one.
pub open spec fn first_excerpt(paragraphs: Seq<Seq<char>>, max: int) -> Option<Seq<char>>
    decreases paragraphs.len(),
{
    if paragraphs.len() == 0 {
        None
    } else {
        match paragraph_excerpt(cleaned(paragraphs[0]), max) {
            Some(e) => Some(e),
            None => first_excerpt(paragraphs.drop_first(), max),
        }
    }
}

/// The paragraphs of a wiki page.
pub fn paragraphs(body: &str) -> (out: Vec<String>)
    ensures
        texts(out@) == wiki_paragraphs(body@),
{
    proof {
        reveal_strlit("\r\n\r\n");
        reveal_strlit("\n\n");
    }
    let pieces = split_on(body, "\r\n\r\n");
    let ghost all = split_from(body@, "\r\n\r\n"@, 0);
    let mut out: Vec<String> = Vec::new();
    let mut k: usize = 0;
    while k < pieces.len()
        invariant
            k <= pieces@.len(),
            pieces@.len() == all.len(),
            forall|x: int| 0 <= x < pieces@.len() ==> (#[trigger] pieces@[x])@ == all[x],
            texts(out@) == split_each(all.take(k as int)),
            "\n\n"@.len() > 0,
        decreases pieces@.len() - k,
    {
        let parts = split_on(pieces[k].as_str(), "\n\n");
        let ghost before = texts(out@);
        let ghost more = split_from(all[k as int], "\n\n"@, 0);
        let mut j: usize = 0;
        while j < parts.len()
            invariant
                j <= parts@.len(),
                parts@.len() == more.len(),
                forall|x: int| 0 <= x < parts@.len() ==> (#[trigger] parts@[x])@ == more[x],
                texts(out@) == before + more.take(j as int),
            decreases parts@.len() - j,
        {
            let ghost prev = out@;
            let piece = parts[j].clone();
            out.push(piece);
            proof {
                lemma_texts_push(prev, piece);
                assert(more.take(j + 1) =~= more.take(j as int).push(more[j as int]));
                assert(texts(out@) =~= before + more.take(j + 1));
            }
            j = j + 1;
        }
        proof {
            let t = all.take(k + 1);
            assert(t.drop_last() =~= all.take(k as int));
            assert(more.take(parts@.len() as int) =~= more);
        }
        k = k + 1;
    }
    proof {
        assert(all.take(pieces@.len() as int) =~= all);
    }
    out
}

/// A link target as a tag name: trimmed, lowercased, spaces as underscores.
pub open spec fn link_name(target: Seq<char>) -> Seq<char> {
    let t = lowercase_of(trimmed(target));
    Seq::new(t.len(), |i: int| if t[i] == ' ' { '_' } else { t[i] })
}

impl Dtext {
    /// The excerpt the site shows for a wiki page, at most `max_chars`
    /// characters before an ellipsis.
    pub fn excerpt(&self, body: &str, max_chars: usize) -> (r: Option<String>)
        ensures
            r is Some == first_excerpt(wiki_paragraphs(body@), max_chars as int) is Some,
            r matches Some(e) ==> e@ == first_excerpt(wiki_paragraphs(body@), max_chars as int)->0,
    {
        proof {
            use_type_invariant(self);
        }
        let d = self;
        let paras = paragraphs(body);
        let ghost all = wiki_paragraphs(body@);
        let mut k: usize = 0;
        assert(all.skip(0) =~= all);
        while k < paras.len()
            invariant
                k <= paras@.len(),
                texts(paras@) == all,
                all == wiki_paragraphs(body@),
                d.patterns@.len() == 6,
                first_excerpt(all, max_chars as int) == first_excerpt(all.skip(k as int), max_chars as int),
            decreases paras@.len() - k,
        {
            let text = clean(d, paras[k].as_str());
            proof {
                assert(texts(paras@)[k as int] == paras@[k as int]@);
                assert(paras@[k as int]@ == all[k as int]);
                assert(all.skip(k as int)[0] == all[k as int]);
                assert(all.skip(k as int).drop_first() =~= all.skip(k + 1));
            }
            let ghost cleaned_text = text@;
            match excerpt_of(text, max_chars) {
                Some(e) => {
                    proof {
                        let rest = all.skip(k as int);
                        assert(rest.len() > 0);
                        assert(cleaned_text == cleaned(rest[0]));
                        assert(paragraph_excerpt(cleaned(rest[0]), max_chars as int) == Some(e@));
                        assert(first_excerpt(rest, max_chars as int) == Some(e@));
                    }
                    return Some(e);
                },
                None => {},
            }
            k = k + 1;
        }
        proof {
            assert(all.skip(k as int) =~= seq![]);
        }
        None
    }

    /// The tag names a wiki page links to, in order.
    pub fn links(&self, body: &str) -> (out: Vec<String>)
        ensures
            out@.len() == regex_first_groups(dtext_pattern(0), body@).len(),
            forall|k: int|
                0 <= k < out@.len() ==> (#[trigger] out@[k])@ == link_name(regex_first_groups(dtext_pattern(0), body@)[k]),
    {
        proof {
            use_type_invariant(self);
        }
        let groups = first_groups(self, body);
        let ghost all = regex_first_groups(dtext_pattern(0), body@);
        let mut out: Vec<String> = Vec::new();
        let mut k: usize = 0;
        while k < groups.len()
            invariant
                k <= groups@.len(),
                groups@.len() == all.len(),
                forall|x: int| 0 <= x < groups@.len() ==> (#[trigger] groups@[x])@ == all[x],
                out@.len() == k,
                forall|x: int| 0 <= x < k ==> (#[trigger] out@[x])@ == link_name(all[x]),
            decreases groups@.len() - k,
        {
            let cs = chars_of(groups[k].as_str());
            let (a, b) = trim_range(&cs, 0, cs.len());
            proof {
                assert(cs@.subrange(0, cs@.len() as int) =~= cs@);
            }
            let t = string_of(&cs, a, b);
            let low = lowercase(t.as_str());
            let lc = chars_of(low.as_str());
            let mut name = String::new();
            let mut j: usize = 0;
            while j < lc.len()
                invariant
                    j <= lc@.len(),
                    name@.len() == j,
                    forall|x: int| 0 <= x < j ==> #[trigger] name@[x] == if lc@[x] == ' ' { '_' } else { lc@[x] },
                decreases lc@.len() - j,
            {
                let c = lc[j];
                push_char(&mut name, if c == ' ' { '_' } else { c });
                j = j + 1;
            }
            proof {
                assert(name@ =~= link_name(all[k as int]));
            }
            out.push(name);
            k = k + 1;
        }
        out
    }
}

/// The nodes a page links to, each once, in order of first mention, leaving
/// out the page's own node `own`.
pub open spec fn linked_nodes(names: Seq<Seq<char>>, n_nodes: int, own: int, links: Seq<Seq<char>>) -> Seq<int>
    decreases links.len(),
{
    if links.len() == 0 {
        seq![]
    } else {
        let rest = linked_nodes(names, n_nodes, own, links.drop_last());
        match node_named(names, n_nodes, links.last()) {
            Some(i) => if i != own && !rest.contains(i) {
                rest.push(i)
            } else {
                rest
            },
            None => rest,
        }
    }
}

/// The see-also list of node `own`'s page: the nodes its links name, each
/// once, in order, not itself.
pub fn see_also(tags: &Tags, own: u32, links: &Vec<String>) -> (out: Vec<u32>)
    requires
        tags.indexed(),
    ensures
        out@.len() == linked_nodes(name_views(tags.names@), tags.n_nodes as int, own as int, texts(links@)).len(),
        forall|k: int|
            0 <= k < out@.len() ==> #[trigger] out@[k] as int == linked_nodes(
                name_views(tags.names@),
                tags.n_nodes as int,
                own as int,
                texts(links@),
            )[k],
{
    let ghost names = name_views(tags.names@);
    let ghost views = texts(links@);
    let mut out: Vec<u32> = Vec::new();
    let mut seen: FxHashSet<u32> = seen_new();
    let mut k: usize = 0;
    while k < links.len()
        invariant
            k <= links@.len(),
            forall|v: u32| #[trigger] seen@.contains(v) <==> out@.contains(v),
            tags.indexed(),
            names == name_views(tags.names@),
            views == texts(links@),
            out@.len() == linked_nodes(names, tags.n_nodes as int, own as int, views.take(k as int)).len(),
            forall|x: int|
                0 <= x < out@.len() ==> #[trigger] out@[x] as int == linked_nodes(
                    names,
                    tags.n_nodes as int,
                    own as int,
                    views.take(k as int),
                )[x],
        decreases links@.len() - k,
    {
        let ghost before = linked_nodes(names, tags.n_nodes as int, own as int, views.take(k as int));
        proof {
            let t = views.take(k + 1);
            assert(t.drop_last() =~= views.take(k as int));
            assert(t.last() == links@[k as int]@);
        }
        match node_of_name(tags, links[k].as_str()) {
            Some(i) => {
                if i != own {
                    proof {
                        if before.contains(i as int) {
                            let y = choose|y: int| 0 <= y < before.len() && before[y] == i as int;
                            assert(out@[y] == i);
                        }
                        if out@.contains(i) {
                            let y = choose|y: int| 0 <= y < out@.len() && out@[y] == i;
                            assert(before[y] == i as int);
                        }
                    }
                    let ghost prior = out@;
                    if seen_insert(&mut seen, i) {
                        out.push(i);
                        proof {
                            assert forall|v: u32| #[trigger] seen@.contains(v) <==> out@.contains(v) by {
                                if v == i {
                                    assert(out@[prior.len() as int] == i);
                                } else if prior.contains(v) {
                                    let y = choose|y: int| 0 <= y < prior.len() && prior[y] == v;
                                    assert(out@[y] == v);
                                } else if out@.contains(v) {
                                    let y = choose|y: int| 0 <= y < out@.len() && out@[y] == v;
                                    assert(prior[y] == v);
                                }
                            }
                        }
                    }
                }
            },
            None => {},
        }
        k = k + 1;
    }
    proof {
        assert(views.take(links@.len() as int) =~= views);
    }
    out
}

} // verus!
