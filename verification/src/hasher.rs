//! The one capability every algorithm of this crate offers: take bytes in any
//! number of pieces, then give a 64-bit digest.

use vstd::prelude::*;
use vstd::string::StringSliceAdditionalSpecFns;

verus! {

/// An incremental hasher, modelled as a state machine.
///
/// `absorb` says how a state changes when bytes are written and `digest` what
/// a state hashes to. `absorb_concat` is the law every implementation proves:
/// the state depends on the bytes written, never on how they were cut into
/// calls of `write`.
pub trait StreamHasher: Sized {
    /// The mathematical state that a hasher stands for.
    type State;

    /// The state of this hasher.
    spec fn state(&self) -> Self::State;

    /// The state of a hasher made by `fresh`.
    spec fn start() -> Self::State;

    /// The state reached from `state` once `bytes` have been written.
    spec fn absorb(state: Self::State, bytes: Seq<u8>) -> Self::State;

    /// The digest of a hasher in `state`.
    spec fn digest(state: Self::State) -> u64;

    /// Writing `a` and then `b` leaves the state that writing `a + b` leaves.
    proof fn absorb_concat(state: Self::State, a: Seq<u8>, b: Seq<u8>)
        ensures
            Self::absorb(Self::absorb(state, a), b) == Self::absorb(state, a + b),
    ;

    /// A hasher that has seen no bytes, with the algorithm's default seed.
    fn fresh() -> (hasher: Self)
        ensures
            hasher.state() == Self::start(),
    ;

    /// Feeds `bytes` to the hasher.
    fn write(&mut self, bytes: &[u8])
        ensures
            final(self).state() == Self::absorb(old(self).state(), bytes@),
    ;

    /// The digest of everything written so far. The hasher can go on taking bytes.
    fn finish(&self) -> (digest: u64)
        ensures
            digest == Self::digest(self.state()),
    ;
}

/// The bytes of `chunks`, one chunk behind the other.
pub open spec fn joined(chunks: Seq<Seq<u8>>) -> Seq<u8>
    decreases chunks.len(),
{
    if chunks.len() == 0 {
        Seq::empty()
    } else {
        joined(chunks.drop_last()) + chunks.last()
    }
}

/// The state reached from `state` once every chunk has been written in its
/// turn, each with a call of its own.
pub open spec fn absorb_each<H: StreamHasher>(state: H::State, chunks: Seq<Seq<u8>>) -> H::State
    decreases chunks.len(),
{
    if chunks.len() == 0 {
        state
    } else {
        H::absorb(absorb_each::<H>(state, chunks.drop_last()), chunks.last())
    }
}

/// Concatenation invariance for any number of writes: however an input is cut
/// into chunks, writing them one by one leaves the state that one write of the
/// whole input leaves.
pub proof fn lemma_writes_are_one_write<H: StreamHasher>(state: H::State, chunks: Seq<Seq<u8>>)
    requires
        chunks.len() > 0,
    ensures
        absorb_each::<H>(state, chunks) == H::absorb(state, joined(chunks)),
    decreases chunks.len(),
{
    let front = chunks.drop_last();
    if front.len() == 0 {
        assert(joined(front) + chunks.last() == chunks.last());
        assert(absorb_each::<H>(state, front) == state);
    } else {
        lemma_writes_are_one_write::<H>(state, front);
        H::absorb_concat(state, joined(front), chunks.last());
    }
}

/// A maker of hashers that all start from one state: the place where a seed
/// lives.
pub trait BuildStreamHasher {
    /// The hashers made.
    type Hasher: StreamHasher;

    /// The state in which every hasher of this maker starts.
    spec fn start(&self) -> <Self::Hasher as StreamHasher>::State;

    /// A hasher that has seen no bytes.
    fn build_hasher(&self) -> (hasher: Self::Hasher)
        ensures
            hasher.state() == self.start(),
    ;
}

/// `std::hash::BuildHasherDefault`, declared so that it can stand where a
/// maker of hashers is asked for. The type holds no data and nothing is
/// claimed of it.
#[verifier::external_type_specification]
#[verifier::external_body]
#[verifier::reject_recursive_types(H)]
pub struct ExBuildHasherDefault<H>(std::hash::BuildHasherDefault<H>);

/// The maker of std builds every hasher in its default state: here, by
/// `fresh`.
impl<H: StreamHasher> BuildStreamHasher for std::hash::BuildHasherDefault<H> {
    type Hasher = H;

    open spec fn start(&self) -> H::State {
        H::start()
    }

    fn build_hasher(&self) -> (hasher: H) {
        H::fresh()
    }
}

/// A hasher that can be copied is a maker of hashers too: every hasher it
/// makes starts in the state it is in, with its seed and with the bytes it
/// has seen.
impl<H: StreamHasher + Copy> BuildStreamHasher for H {
    type Hasher = H;

    open spec fn start(&self) -> H::State {
        self.state()
    }

    fn build_hasher(&self) -> (hasher: H) {
        *self
    }
}

/// A value that can be a key or a node: it stands for a sequence of bytes and
/// can feed them to any hasher.
pub trait HashInput {
    /// The bytes that stand for this value.
    spec fn encoding(&self) -> Seq<u8>;

    /// Writes the bytes of this value to `hasher`.
    fn feed<H: StreamHasher>(&self, hasher: &mut H)
        ensures
            final(hasher).state() == H::absorb(old(hasher).state(), self.encoding()),
    ;
}

/// The byte that ends a string, so that no string is the prefix of another:
/// no UTF-8 text holds it.
pub const STR_END: u8 = 0xff;

/// What a text stands for: its UTF-8 bytes and the end byte.
pub open spec fn text_encoding(text: Seq<char>) -> Seq<u8> {
    vstd::utf8::encode_utf8(text).push(STR_END)
}

/// A string stands for its UTF-8 bytes and the end byte.
impl HashInput for str {
    open spec fn encoding(&self) -> Seq<u8> {
        text_encoding(self@)
    }

    fn feed<H: StreamHasher>(&self, hasher: &mut H) {
        let ghost before = hasher.state();
        hasher.write(self.as_bytes());
        let end = [STR_END];
        hasher.write(&end);
        proof {
            H::absorb_concat(before, self.spec_bytes(), end@);
            assert(self.spec_bytes() + end@ == self.spec_bytes().push(STR_END));
        }
    }
}

/// An owned string stands for what its text stands for.
impl HashInput for String {
    open spec fn encoding(&self) -> Seq<u8> {
        text_encoding(self@)
    }

    fn feed<H: StreamHasher>(&self, hasher: &mut H) {
        self.as_str().feed(hasher);
    }
}

/// A byte slice stands for its bytes, with nothing added.
impl HashInput for [u8] {
    open spec fn encoding(&self) -> Seq<u8> {
        self@
    }

    fn feed<H: StreamHasher>(&self, hasher: &mut H) {
        hasher.write(self);
    }
}

/// A byte vector stands for its bytes, with nothing added.
impl HashInput for Vec<u8> {
    open spec fn encoding(&self) -> Seq<u8> {
        self@
    }

    fn feed<H: StreamHasher>(&self, hasher: &mut H) {
        hasher.write(self.as_slice());
    }
}

/// A 32-bit number stands for its four bytes, lowest first.
impl HashInput for u32 {
    open spec fn encoding(&self) -> Seq<u8> {
        vstd::bytes::spec_u32_to_le_bytes(*self)
    }

    fn feed<H: StreamHasher>(&self, hasher: &mut H) {
        let bytes = vstd::bytes::u32_to_le_bytes(*self);
        hasher.write(bytes.as_slice());
    }
}

/// A 64-bit number stands for its eight bytes, lowest first.
impl HashInput for u64 {
    open spec fn encoding(&self) -> Seq<u8> {
        vstd::bytes::spec_u64_to_le_bytes(*self)
    }

    fn feed<H: StreamHasher>(&self, hasher: &mut H) {
        let bytes = vstd::bytes::u64_to_le_bytes(*self);
        hasher.write(bytes.as_slice());
    }
}

/// A reference stands for what it points to.
impl<T: HashInput + ?Sized> HashInput for &T {
    open spec fn encoding(&self) -> Seq<u8> {
        (**self).encoding()
    }

    fn feed<H: StreamHasher>(&self, hasher: &mut H) {
        (**self).feed(hasher);
    }
}

} // verus!
