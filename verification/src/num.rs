use vstd::prelude::*;

verus! {

/// An ASCII decimal digit.
pub open spec fn is_digit(b: u8) -> bool {
    48 <= b <= 57
}

/// Every byte is an ASCII decimal digit.
pub open spec fn all_digits(s: Seq<u8>) -> bool {
    forall|i: int| 0 <= i < s.len() ==> is_digit(#[trigger] s[i])
}

/// The value of a run of decimal digits, most significant first.
pub open spec fn digits_value(s: Seq<u8>) -> nat
    decreases s.len(),
{
    if s.len() == 0 {
        0
    } else {
        digits_value(s.drop_last()) * 10 + (s.last() - 48) as nat
    }
}

/// The digits of an unsigned number as std's `from_str` reads them: one
/// leading `+` is skipped.
pub open spec fn unsigned_digits(s: Seq<u8>) -> Seq<u8> {
    if s.len() > 0 && s[0] == 43 {
        s.drop_first()
    } else {
        s
    }
}

/// Text that std reads as an unsigned number: an optional `+`, then at least
/// one ASCII digit and nothing else.
pub open spec fn unsigned_text(s: Seq<u8>) -> bool {
    unsigned_digits(s).len() > 0 && all_digits(unsigned_digits(s))
}

/// What std's `from_str` for an unsigned type whose largest value is `max`
/// makes of `s`.
pub open spec fn unsigned_value(s: Seq<u8>, max: int) -> Option<nat> {
    if unsigned_text(s) && digits_value(unsigned_digits(s)) <= max {
        Some(digits_value(unsigned_digits(s)))
    } else {
        None
    }
}

proof fn lemma_digits_prefix(s: Seq<u8>, i: int)
    requires
        0 <= i <= s.len(),
        all_digits(s),
    ensures
        digits_value(s.take(i)) <= digits_value(s),
    decreases s.len(),
{
    if i < s.len() {
        assert(s.drop_last().take(i) =~= s.take(i));
        lemma_digits_prefix(s.drop_last(), i);
    } else {
        assert(s.take(i) =~= s);
    }
}

/// Reads `s` as an unsigned decimal no greater than `max`, as std's `from_str`
/// for an unsigned integer type does.
pub fn parse_unsigned(s: &[u8], max: u64) -> (r: Option<u64>)
    ensures
        r == (match unsigned_value(s@, max as int) {
            Some(v) => Some(v as u64),
            None => None,
        }),
{
    let start: usize = if s.len() > 0 && s[0] == 43 {
        1
    } else {
        0
    };
    let ghost d = unsigned_digits(s@);
    assert(d =~= s@.subrange(start as int, s@.len() as int));
    if start >= s.len() {
        return None;
    }
    let mut acc: u128 = 0;
    let mut i: usize = start;
    while i < s.len()
        invariant
            start <= i <= s@.len(),
            d == unsigned_digits(s@),
            d.len() > 0,
            d =~= s@.subrange(start as int, s@.len() as int),
            all_digits(d.take(i - start)),
            acc == digits_value(d.take(i - start)),
            acc <= max,
        decreases s@.len() - i,
    {
        let b = s[i];
        if b < 48 || b > 57 {
            assert(d[i - start] == b);
            assert(!is_digit(d[i - start]));
            return None;
        }
        proof {
            assert(d.take(i - start + 1).drop_last() =~= d.take(i - start));
            assert(d.take(i - start + 1).last() == b);
        }
        acc = acc * 10 + (b - 48) as u128;
        assert(acc == digits_value(d.take(i - start + 1)));
        assert(all_digits(d.take(i - start + 1))) by {
            assert forall|j: int| 0 <= j < i - start + 1 implies is_digit(#[trigger] d.take(i - start + 1)[j]) by {
                if j < i - start {
                    assert(d.take(i - start)[j] == d.take(i - start + 1)[j]);
                }
            }
        }
        if acc > max as u128 {
            proof {
                if all_digits(d) {
                    lemma_digits_prefix(d, i - start + 1);
                }
            }
            return None;
        }
        i = i + 1;
    }
    assert(d.take(i - start) =~= d);
    Some(acc as u64)
}

} // verus!
