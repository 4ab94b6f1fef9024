use sha2::Sha256;
use vstd::prelude::*;

use crate::exports::Export;
use crate::text::{chars_of, push_char};

verus! {

/// The SHA-256 hasher of the sha2 crate, held opaquely: `sha2::Sha256` is a
/// type alias over generic wrappers that Verus does not take as a declared
/// outside type.
#[verifier::external_body]
pub struct Sha256State {
    inner: Sha256,
}

/// The SHA-256 digest of `bytes`, as the sha2 crate computes it.
pub uninterp spec fn sha256_of(bytes: Seq<u8>) -> Seq<u8>;

/// Calls `Sha256::new` (sha2). Nothing is claimed of the fresh state beyond
/// what `Hasher` records next to it.
#[verifier::external_body]
fn sha_new() -> (state: Sha256State) {
    Sha256State { inner: <Sha256 as sha2::Digest>::new() }
}

/// Calls `Digest::update` (sha2) with one chunk. Nothing is claimed of the
/// opaque state; `Hasher` records the chunk next to it.
#[verifier::external_body]
fn sha_update(state: &mut Sha256State, chunk: &[u8]) {
    sha2::Digest::update(&mut state.inner, chunk);
}

/// A streaming SHA-256 hasher that remembers, as ghost state, every byte it
/// has been fed.
pub struct Hasher {
    state: Sha256State,
    fed: Ghost<Seq<u8>>,
}

impl Hasher {
    /// The bytes fed so far, in order.
    pub closed spec fn input(&self) -> Seq<u8> {
        self.fed@
    }

    /// A hasher that has been fed nothing.
    pub fn new() -> (h: Hasher)
        ensures
            h.input() == Seq::<u8>::empty(),
    {
        Hasher { state: sha_new(), fed: Ghost(Seq::empty()) }
    }

    /// Feeds `chunk` after what came before.
    pub fn update(&mut self, chunk: &[u8])
        ensures
            final(self).input() == old(self).input() + chunk@,
    {
        sha_update(&mut self.state, chunk);
        self.fed = Ghost(self.fed@ + chunk@);
    }

    /// Calls `Digest::finalize` (sha2) and copies the 32 bytes out. The
    /// contract claims the SHA-256 digest of everything fed, which holds
    /// because the state only ever changes through `update`, which records
    /// each chunk it passes on.
    #[verifier::external_body]
    pub fn finish(self) -> (d: Vec<u8>)
        ensures
            d@ == sha256_of(self.input()),
    {
        sha2::Digest::finalize(self.state.inner).to_vec()
    }
}

/// The lowercase hex digit of `v`, below sixteen.
pub open spec fn hex_digit(v: int) -> char {
    if v < 10 {
        (48 + v) as char
    } else {
        (87 + v) as char
    }
}

/// `bytes` in lowercase hex, two digits a byte, high digit first: what
/// `hex::encode` gives.
pub open spec fn hex_of(bytes: Seq<u8>) -> Seq<char>
    decreases bytes.len(),
{
    if bytes.len() == 0 {
        Seq::empty()
    } else {
        hex_of(bytes.drop_last()) + seq![hex_digit(bytes.last() as int / 16), hex_digit(bytes.last() as int % 16)]
    }
}

fn digit_char(v: u8) -> (c: char)
    requires
        v < 16,
    ensures
        c == hex_digit(v as int),
{
    if v < 10 {
        (48 + v) as char
    } else {
        (87 + v) as char
    }
}

/// `bytes` in lowercase hex, as `hex::encode` writes them.
pub fn hex_lower(bytes: &[u8]) -> (s: String)
    ensures
        s@ == hex_of(bytes@),
{
    let mut s = String::new();
    let mut i: usize = 0;
    while i < bytes.len()
        invariant
            i <= bytes@.len(),
            s@ == hex_of(bytes@.take(i as int)),
        decreases bytes@.len() - i,
    {
        let b = bytes[i];
        proof {
            assert(bytes@.take(i + 1).drop_last() =~= bytes@.take(i as int));
            assert(bytes@.take(i + 1).last() == b);
        }
        push_char(&mut s, digit_char(b / 16));
        push_char(&mut s, digit_char(b % 16));
        i = i + 1;
        assert(s@ =~= hex_of(bytes@.take(i as int)));
    }
    assert(bytes@.take(i as int) =~= bytes@);
    s
}

/// Whether `digest`, written in lowercase hex, is the checksum the manifest
/// gives for `export`.
pub fn checksum_matches(digest: &[u8], export: &Export) -> (ok: bool)
    ensures
        ok == (hex_of(digest@) == export.checksum@),
{
    let text = hex_lower(digest);
    let ours = chars_of(text.as_str());
    let theirs = chars_of(export.checksum.as_str());
    assert(ours@ == hex_of(digest@));
    assert(theirs@ == export.checksum@);
    if ours.len() != theirs.len() {
        assert(ours@.len() != theirs@.len());
        return false;
    }
    let mut i: usize = 0;
    while i < ours.len()
        invariant
            i <= ours@.len() == theirs@.len(),
            ours@ == hex_of(digest@),
            theirs@ == export.checksum@,
            forall|j: int| 0 <= j < i ==> ours@[j] == theirs@[j],
        decreases ours@.len() - i,
    {
        if ours[i] != theirs[i] {
            assert(ours@[i as int] != theirs@[i as int]);
            assert(ours@ != theirs@);
            return false;
        }
        i = i + 1;
    }
    assert(ours@ =~= theirs@);
    true
}

} // verus!
