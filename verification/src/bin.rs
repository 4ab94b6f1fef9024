use vstd::prelude::*;

verus! {

/// A fixed-width value stored little-endian in the work directory's `.bin`
/// files.
pub trait Le: Sized + Copy {
    /// How many bytes one value takes.
    spec fn width() -> nat;

    /// The bytes of one value, least significant first.
    spec fn le_bytes(self) -> Seq<u8>;

    /// The value that `width()` bytes stand for.
    spec fn from_le_seq(bytes: Seq<u8>) -> Self;

    /// A value takes at least one byte.
    proof fn lemma_width()
        ensures
            Self::width() > 0,
    ;

    /// Every value has `width()` bytes, and reading them gives it back.
    proof fn lemma_le(x: Self)
        ensures
            x.le_bytes().len() == Self::width(),
            Self::from_le_seq(x.le_bytes()) == x,
    ;

    /// How many bytes one value takes.
    fn size() -> (s: usize)
        ensures
            s == Self::width(),
    ;

    /// Appends the bytes of `self` to `out`.
    fn put(self, out: &mut Vec<u8>)
        ensures
            final(out)@ == old(out)@ + self.le_bytes(),
    ;

    /// Reads every whole value at the front of `bytes`; a partial value at the
    /// end is left out.
    fn get_all(bytes: &[u8]) -> (v: Vec<Self>)
        ensures
            v@.len() == bytes@.len() / Self::width(),
            forall|i: int|
                0 <= i < v@.len() ==> #[trigger] v@[i] == Self::from_le_seq(
                    bytes@.subrange(i * Self::width(), i * Self::width() + Self::width()),
                ),
    ;
}

/// The values that `bytes` hold, one per whole `width()` bytes.
pub open spec fn decode_all<T: Le>(bytes: Seq<u8>) -> Seq<T> {
    Seq::new(
        bytes.len() / T::width(),
        |i: int| T::from_le_seq(bytes.subrange(i * T::width(), i * T::width() + T::width())),
    )
}

/// The bytes of `values`, one after the other.
pub open spec fn encode_all<T: Le>(values: Seq<T>) -> Seq<u8>
    decreases values.len(),
{
    if values.len() == 0 {
        Seq::empty()
    } else {
        encode_all(values.drop_last()) + values.last().le_bytes()
    }
}

/// Why a byte buffer cannot be read back as values.
#[derive(Debug, PartialEq, Eq, Structural)]
pub enum ReadError {
    /// The length is not a multiple of the element size.
    Misaligned,
}

impl Le for u8 {
    open spec fn width() -> nat {
        1
    }

    open spec fn le_bytes(self) -> Seq<u8> {
        seq![self]
    }

    open spec fn from_le_seq(bytes: Seq<u8>) -> u8 {
        bytes[0]
    }

    proof fn lemma_width() {
    }

    proof fn lemma_le(x: u8) {
    }

    fn size() -> (s: usize) {
        1
    }

    fn put(self, out: &mut Vec<u8>) {
        out.push(self);
    }

    fn get_all(bytes: &[u8]) -> (v: Vec<u8>) {
        let mut v: Vec<u8> = Vec::new();
        let mut i: usize = 0;
        while i < bytes.len()
            invariant
                i <= bytes@.len(),
                v@.len() == i,
                forall|j: int| 0 <= j < i ==> #[trigger] v@[j] == u8::from_le_seq(bytes@.subrange(j, j + 1)),
            decreases bytes@.len() - i,
        {
            v.push(bytes[i]);
            i = i + 1;
        }
        v
    }
}

impl Le for u16 {
    open spec fn width() -> nat {
        2
    }

    open spec fn le_bytes(self) -> Seq<u8> {
        seq![(self & 0xff) as u8, ((self >> 8u16) & 0xff) as u8]
    }

    open spec fn from_le_seq(b: Seq<u8>) -> u16 {
        (b[0] as u16) | ((b[1] as u16) << 8u16)
    }

    proof fn lemma_width() {
    }

    proof fn lemma_le(x: u16) {
        let b = x.le_bytes();
        let (b0, b1) = ((x & 0xff) as u8, ((x >> 8u16) & 0xff) as u8);
        assert(b[0] == b0 && b[1] == b1);
        assert((b0 as u16) | ((b1 as u16) << 8u16) == x) by (bit_vector)
            requires
                b0 == (x & 0xff) as u8,
                b1 == ((x >> 8u16) & 0xff) as u8,
        ;
    }

    fn size() -> (s: usize) {
        2
    }

    fn put(self, out: &mut Vec<u8>) {
        out.push((self & 0xff) as u8);
        out.push(((self >> 8u16) & 0xff) as u8);
        assert(final(out)@ =~= old(out)@ + self.le_bytes());
    }

    fn get_all(bytes: &[u8]) -> (v: Vec<u16>) {
        let n = bytes.len() / 2;
        let mut v: Vec<u16> = Vec::new();
        let mut i: usize = 0;
        while i < n
            invariant
                n == bytes@.len() / 2,
                i <= n,
                v@.len() == i,
                forall|j: int|
                    0 <= j < i ==> #[trigger] v@[j] == u16::from_le_seq(bytes@.subrange(2 * j, 2 * j + 2)),
            decreases n - i,
        {
            let x = (bytes[2 * i] as u16) | ((bytes[2 * i + 1] as u16) << 8u16);
            v.push(x);
            i = i + 1;
        }
        v
    }
}

impl Le for u32 {
    open spec fn width() -> nat {
        4
    }

    open spec fn le_bytes(self) -> Seq<u8> {
        seq![
            (self & 0xff) as u8,
            ((self >> 8u32) & 0xff) as u8,
            ((self >> 16u32) & 0xff) as u8,
            ((self >> 24u32) & 0xff) as u8,
        ]
    }

    open spec fn from_le_seq(b: Seq<u8>) -> u32 {
        (b[0] as u32) | ((b[1] as u32) << 8u32) | ((b[2] as u32) << 16u32) | ((b[3] as u32)
            << 24u32)
    }

    proof fn lemma_width() {
    }

    proof fn lemma_le(x: u32) {
        let b = x.le_bytes();
        let (b0, b1, b2, b3) = (
            (x & 0xff) as u8,
            ((x >> 8u32) & 0xff) as u8,
            ((x >> 16u32) & 0xff) as u8,
            ((x >> 24u32) & 0xff) as u8,
        );
        assert(b[0] == b0 && b[1] == b1 && b[2] == b2 && b[3] == b3);
        assert((b0 as u32) | ((b1 as u32) << 8u32) | ((b2 as u32) << 16u32) | ((b3 as u32)
            << 24u32) == x) by (bit_vector)
            requires
                b0 == (x & 0xff) as u8,
                b1 == ((x >> 8u32) & 0xff) as u8,
                b2 == ((x >> 16u32) & 0xff) as u8,
                b3 == ((x >> 24u32) & 0xff) as u8,
        ;
    }

    fn size() -> (s: usize) {
        4
    }

    fn put(self, out: &mut Vec<u8>) {
        out.push((self & 0xff) as u8);
        out.push(((self >> 8u32) & 0xff) as u8);
        out.push(((self >> 16u32) & 0xff) as u8);
        out.push(((self >> 24u32) & 0xff) as u8);
        assert(final(out)@ =~= old(out)@ + self.le_bytes());
    }

    fn get_all(bytes: &[u8]) -> (v: Vec<u32>) {
        let n = bytes.len() / 4;
        let mut v: Vec<u32> = Vec::new();
        let mut i: usize = 0;
        while i < n
            invariant
                n == bytes@.len() / 4,
                i <= n,
                v@.len() == i,
                forall|j: int|
                    0 <= j < i ==> #[trigger] v@[j] == u32::from_le_seq(bytes@.subrange(4 * j, 4 * j + 4)),
            decreases n - i,
        {
            let p = 4 * i;
            let x = (bytes[p] as u32) | ((bytes[p + 1] as u32) << 8u32) | ((bytes[p + 2] as u32)
                << 16u32) | ((bytes[p + 3] as u32) << 24u32);
            v.push(x);
            i = i + 1;
        }
        v
    }
}

impl Le for u64 {
    open spec fn width() -> nat {
        8
    }

    open spec fn le_bytes(self) -> Seq<u8> {
        seq![
            (self & 0xff) as u8,
            ((self >> 8u64) & 0xff) as u8,
            ((self >> 16u64) & 0xff) as u8,
            ((self >> 24u64) & 0xff) as u8,
            ((self >> 32u64) & 0xff) as u8,
            ((self >> 40u64) & 0xff) as u8,
            ((self >> 48u64) & 0xff) as u8,
            ((self >> 56u64) & 0xff) as u8,
        ]
    }

    open spec fn from_le_seq(b: Seq<u8>) -> u64 {
        (b[0] as u64) | ((b[1] as u64) << 8u64) | ((b[2] as u64) << 16u64) | ((b[3] as u64)
            << 24u64) | ((b[4] as u64) << 32u64) | ((b[5] as u64) << 40u64) | ((b[6] as u64)
            << 48u64) | ((b[7] as u64) << 56u64)
    }

    proof fn lemma_width() {
    }

    proof fn lemma_le(x: u64) {
        let b = x.le_bytes();
        let (b0, b1, b2, b3, b4, b5, b6, b7) = (
            (x & 0xff) as u8,
            ((x >> 8u64) & 0xff) as u8,
            ((x >> 16u64) & 0xff) as u8,
            ((x >> 24u64) & 0xff) as u8,
            ((x >> 32u64) & 0xff) as u8,
            ((x >> 40u64) & 0xff) as u8,
            ((x >> 48u64) & 0xff) as u8,
            ((x >> 56u64) & 0xff) as u8,
        );
        assert(b[0] == b0 && b[1] == b1 && b[2] == b2 && b[3] == b3);
        assert(b[4] == b4 && b[5] == b5 && b[6] == b6 && b[7] == b7);
        assert((b0 as u64) | ((b1 as u64) << 8u64) | ((b2 as u64) << 16u64) | ((b3 as u64)
            << 24u64) | ((b4 as u64) << 32u64) | ((b5 as u64) << 40u64) | ((b6 as u64)
            << 48u64) | ((b7 as u64) << 56u64) == x) by (bit_vector)
            requires
                b0 == (x & 0xff) as u8,
                b1 == ((x >> 8u64) & 0xff) as u8,
                b2 == ((x >> 16u64) & 0xff) as u8,
                b3 == ((x >> 24u64) & 0xff) as u8,
                b4 == ((x >> 32u64) & 0xff) as u8,
                b5 == ((x >> 40u64) & 0xff) as u8,
                b6 == ((x >> 48u64) & 0xff) as u8,
                b7 == ((x >> 56u64) & 0xff) as u8,
        ;
    }

    fn size() -> (s: usize) {
        8
    }

    fn put(self, out: &mut Vec<u8>) {
        out.push((self & 0xff) as u8);
        out.push(((self >> 8u64) & 0xff) as u8);
        out.push(((self >> 16u64) & 0xff) as u8);
        out.push(((self >> 24u64) & 0xff) as u8);
        out.push(((self >> 32u64) & 0xff) as u8);
        out.push(((self >> 40u64) & 0xff) as u8);
        out.push(((self >> 48u64) & 0xff) as u8);
        out.push(((self >> 56u64) & 0xff) as u8);
        assert(final(out)@ =~= old(out)@ + self.le_bytes());
    }

    fn get_all(bytes: &[u8]) -> (v: Vec<u64>) {
        let n = bytes.len() / 8;
        let mut v: Vec<u64> = Vec::new();
        let mut i: usize = 0;
        while i < n
            invariant
                n == bytes@.len() / 8,
                i <= n,
                v@.len() == i,
                forall|j: int|
                    0 <= j < i ==> #[trigger] v@[j] == u64::from_le_seq(bytes@.subrange(8 * j, 8 * j + 8)),
            decreases n - i,
        {
            let p = 8 * i;
            let x = (bytes[p] as u64) | ((bytes[p + 1] as u64) << 8u64) | ((bytes[p + 2] as u64)
                << 16u64) | ((bytes[p + 3] as u64) << 24u64) | ((bytes[p + 4] as u64) << 32u64)
                | ((bytes[p + 5] as u64) << 40u64) | ((bytes[p + 6] as u64) << 48u64) | ((bytes[p
                + 7] as u64) << 56u64);
            v.push(x);
            i = i + 1;
        }
        v
    }
}

/// Appends the bytes of every value to `w`, in order.
pub fn write_all<T: Le>(w: &mut Vec<u8>, values: &[T])
    ensures
        final(w)@ == old(w)@ + encode_all(values@),
{
    let ghost start = w@;
    let mut i: usize = 0;
    while i < values.len()
        invariant
            i <= values@.len(),
            w@ == start + encode_all(values@.take(i as int)),
        decreases values@.len() - i,
    {
        values[i].put(w);
        assert(values@.take(i + 1).drop_last() =~= values@.take(i as int));
        assert(w@ =~= start + encode_all(values@.take(i + 1)));
        i = i + 1;
    }
    assert(values@.take(values@.len() as int) =~= values@);
}

/// Reads `bytes` back as values, or refuses them when their length is not a
/// whole number of values.
pub fn read_all<T: Le>(bytes: &[u8]) -> (r: Result<Vec<T>, ReadError>)
    ensures
        match r {
            Ok(v) => bytes@.len() % T::width() == 0 && v@ == decode_all::<T>(bytes@),
            Err(e) => bytes@.len() % T::width() != 0 && e == ReadError::Misaligned,
        },
{
    proof {
        T::lemma_width();
    }
    if bytes.len() % T::size() != 0 {
        return Err(ReadError::Misaligned);
    }
    let v = T::get_all(bytes);
    assert(v@ =~= decode_all::<T>(bytes@));
    Ok(v)
}

proof fn lemma_encode_all<T: Le>(values: Seq<T>)
    ensures
        encode_all(values).len() == values.len() * T::width(),
        forall|i: int|
            0 <= i < values.len() ==> #[trigger] encode_all(values).subrange(
                i * T::width(),
                i * T::width() + T::width(),
            ) == values[i].le_bytes(),
    decreases values.len(),
{
    if values.len() > 0 {
        let w = T::width();
        let init = values.drop_last();
        T::lemma_width();
        T::lemma_le(values.last());
        lemma_encode_all(init);
        let e = encode_all(values);
        assert(e == encode_all(init) + values.last().le_bytes());
        assert(init.len() * w + w == values.len() * w) by (nonlinear_arith)
            requires
                init.len() + 1 == values.len(),
        ;
        assert forall|i: int| 0 <= i < values.len() implies #[trigger] e.subrange(
            i * w,
            i * w + w,
        ) == values[i].le_bytes() by {
            if i < init.len() {
                assert(i * w + w <= init.len() * w) by (nonlinear_arith)
                    requires
                        i + 1 <= init.len(),
                        0 <= i,
                ;
                assert(0 <= i * w) by (nonlinear_arith)
                    requires
                        0 <= i,
                ;
                assert(e.subrange(i * w, i * w + w) =~= encode_all(init).subrange(i * w, i * w + w));
                assert(values[i] == init[i]);
            } else {
                assert(i * w == init.len() * w);
                assert(e.subrange(i * w, i * w + w) =~= values.last().le_bytes());
            }
        }
    }
}

/// What `write_all` writes, `read_all` reads back unchanged.
pub proof fn lemma_read_back_what_was_written<T: Le>(values: Seq<T>)
    ensures
        encode_all(values).len() % T::width() == 0,
        decode_all::<T>(encode_all(values)) == values,
{
    lemma_encode_all(values);
    let w = T::width();
    T::lemma_width();
    assert((values.len() * w) % w == 0 && (values.len() * w) / w == values.len()) by (nonlinear_arith)
        requires
            w > 0,
    ;
    let d = decode_all::<T>(encode_all(values));
    assert forall|i: int| 0 <= i < values.len() implies #[trigger] d[i] == values[i] by {
        T::lemma_le(values[i]);
    }
    assert(d =~= values);
}

} // verus!
