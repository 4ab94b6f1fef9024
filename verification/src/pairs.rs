use vstd::prelude::*;

verus! {

/// Two to the thirty-second: the weight of the high half of a pair key.
pub open spec fn half() -> int {
    0x1_0000_0000
}

/// The key of an unordered tag pair, the higher index in the upper 32 bits.
pub open spec fn pair_key(hi: u32, lo: u32) -> int {
    hi as int * half() + lo as int
}

/// The high half of a key.
pub open spec fn key_hi(key: u64) -> int {
    key as int / half()
}

/// The low half of a key.
pub open spec fn key_lo(key: u64) -> int {
    key as int % half()
}

/// Co-occurrence counts of tag pairs, as two parallel columns.
pub struct Pairs {
    pub keys: Vec<u64>,
    pub counts: Vec<u32>,
}

impl Pairs {
    /// Packs a pair into one key, `hi` in the upper 32 bits.
    pub fn key(hi: u32, lo: u32) -> (k: u64)
        ensures
            k == pair_key(hi, lo),
    {
        let k = ((hi as u64) << 32u64) | lo as u64;
        assert(k == hi as u64 * 0x1_0000_0000u64 + lo as u64) by (bit_vector)
            requires
                k == ((hi as u64) << 32u64) | lo as u64,
        ;
        k
    }

    pub(crate) fn hi(key: u64) -> (h: u32)
        ensures
            h == key_hi(key),
    {
        let h = (key >> 32u64) as u32;
        assert(h == key / 0x1_0000_0000u64) by (bit_vector)
            requires
                h == (key >> 32u64) as u32,
        ;
        h
    }

    pub(crate) fn lo(key: u64) -> (l: u32)
        ensures
            l == key_lo(key),
    {
        let l = key as u32;
        assert(l == key % 0x1_0000_0000u64) by (bit_vector)
            requires
                l == key as u32,
        ;
        l
    }

    /// The pairs as `(hi, lo, count)` triples, over as many rows as both
    /// columns hold.
    pub fn iter(&self) -> (out: Vec<(u32, u32, u32)>)
        ensures
            out@.len() == if self.keys@.len() <= self.counts@.len() {
                self.keys@.len()
            } else {
                self.counts@.len()
            },
            forall|i: int|
                0 <= i < out@.len() ==> #[trigger] out@[i] == pair_row(self.keys@[i], self.counts@[i]),
    {
        let n = if self.keys.len() <= self.counts.len() {
            self.keys.len()
        } else {
            self.counts.len()
        };
        let mut out: Vec<(u32, u32, u32)> = Vec::new();
        let mut i: usize = 0;
        while i < n
            invariant
                i <= n,
                n <= self.keys@.len(),
                n <= self.counts@.len(),
                out@.len() == i,
                forall|j: int|
                    0 <= j < i ==> #[trigger] out@[j] == pair_row(self.keys@[j], self.counts@[j]),
            decreases n - i,
        {
            let k = self.keys[i];
            out.push((Pairs::hi(k), Pairs::lo(k), self.counts[i]));
            i = i + 1;
        }
        out
    }
}

/// The `(hi, lo, count)` triple that a key and its count stand for.
pub open spec fn pair_row(key: u64, count: u32) -> (u32, u32, u32) {
    (key_hi(key) as u32, key_lo(key) as u32, count)
}

/// A key gives back the two halves it was made of, so distinct pairs never
/// share a key.
pub proof fn lemma_key_round_trip(hi: u32, lo: u32)
    ensures
        0 <= pair_key(hi, lo) <= u64::MAX,
        key_hi(pair_key(hi, lo) as u64) == hi,
        key_lo(pair_key(hi, lo) as u64) == lo,
{
    assert(0 <= pair_key(hi, lo) <= u64::MAX) by (nonlinear_arith);
    let k = pair_key(hi, lo);
    assert((hi as int * 0x1_0000_0000 + lo as int) / 0x1_0000_0000 == hi as int) by (nonlinear_arith);
    assert((hi as int * 0x1_0000_0000 + lo as int) % 0x1_0000_0000 == lo as int) by (nonlinear_arith);
}

/// Two pairs with the same key are the same pair.
pub proof fn lemma_key_injective(h1: u32, l1: u32, h2: u32, l2: u32)
    requires
        pair_key(h1, l1) == pair_key(h2, l2),
    ensures
        h1 == h2,
        l1 == l2,
{
    lemma_key_round_trip(h1, l1);
    lemma_key_round_trip(h2, l2);
}

} // verus!
