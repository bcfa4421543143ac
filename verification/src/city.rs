//! CityHash64, in a simplified form with three paths chosen by the length of
//! the input: up to 16 bytes, 17 to 32 bytes, and more than 32 bytes.
//!
//! The long path reads the first 32 to 48 bytes and the last 32 bytes of the
//! input and nothing in between, whatever the length: a trade of dispersion
//! for speed that is part of this hash.
//!
//! Good for hash tables, checksums and sharding; no defence against inputs
//! chosen to collide.

use crate::bits::{fetch32, fetch64, le32, le64, rotr64};
use vstd::prelude::*;
use vstd::slice::slice_subrange;
use vstd::wrapping::u64_specs::{wrapping_add, wrapping_mul, wrapping_sub};

verus! {

/// First mixing constant.
pub const K0: u64 = 0xc3a5c85c97cb3127;

/// Second mixing constant.
pub const K1: u64 = 0xb492b66fbe98f273;

/// Third mixing constant: the hash of the empty input.
pub const K2: u64 = 0x9ae16a3b2f90404f;

/// Multiplier that folds 128 bits into 64 where a seed is mixed in.
pub const K_MUL: u64 = 0x9ddfea08eb382d69;

/// A length as a 64-bit word.
pub open spec fn len64(len: nat) -> u64 {
    (len % 0x1_0000_0000_0000_0000) as u64
}

/// The multiplier of the short and the middle path: `K2` plus twice the length.
pub open spec fn length_mul(len: nat) -> u64 {
    wrapping_add(K2, wrapping_mul(len64(len), 2))
}

/// `val` xored with its own top 17 bits.
pub open spec fn shift_mix_spec(val: u64) -> u64 {
    val ^ (val >> 47)
}

/// The finalizer of every path: two words folded into one under `mul`.
pub open spec fn hash_len_16_mul_spec(u: u64, v: u64, mul: u64) -> u64 {
    let a = shift_mix_spec(wrapping_mul(u ^ v, mul));
    let b = shift_mix_spec(wrapping_mul(v ^ a, mul));
    wrapping_mul(b, mul)
}

/// The hash of an input of 8 to 16 bytes: its first and its last eight bytes,
/// which overlap below 16.
pub open spec fn city_8_to_16_spec(data: Seq<u8>) -> u64 {
    let mul = length_mul(data.len());
    let a = wrapping_add(le64(data, 0), K2);
    let b = le64(data, data.len() - 8);
    let c = wrapping_add(wrapping_mul(rotr64(b, 37), mul), a);
    let d = wrapping_mul(wrapping_add(rotr64(a, 25), b), mul);
    hash_len_16_mul_spec(c, d, mul)
}

/// The hash of an input of 4 to 7 bytes: its first and its last four bytes,
/// which overlap below 8.
pub open spec fn city_4_to_7_spec(data: Seq<u8>) -> u64 {
    let mul = length_mul(data.len());
    let a = le32(data, 0) as u64;
    let b = le32(data, data.len() - 4) as u64;
    hash_len_16_mul_spec(wrapping_add(len64(data.len()), a << 3), b, mul)
}

/// The hash of an input of 1 to 3 bytes: its first, middle and last byte.
pub open spec fn city_1_to_3_spec(data: Seq<u8>) -> u64 {
    let a = data[0] as u64;
    let b = data[(data.len() / 2) as int] as u64;
    let c = data[data.len() - 1] as u64;
    let y = wrapping_add(a, b << 8);
    let z = wrapping_add(len64(data.len()), c << 2);
    wrapping_mul(shift_mix_spec(wrapping_mul(y, K2) ^ wrapping_mul(z, K0)), K2)
}

/// The short path, taken up to 16 bytes. The empty input hashes to `K2`.
pub open spec fn city_small_spec(data: Seq<u8>) -> u64 {
    if data.len() >= 8 {
        city_8_to_16_spec(data)
    } else if data.len() >= 4 {
        city_4_to_7_spec(data)
    } else if data.len() > 0 {
        city_1_to_3_spec(data)
    } else {
        K2
    }
}

/// The middle path, taken from 17 to 32 bytes: the words at 0, at 8, and the
/// last two.
pub open spec fn city_medium_spec(data: Seq<u8>) -> u64 {
    let mul = length_mul(data.len());
    let a = wrapping_mul(le64(data, 0), K1);
    let b = le64(data, 8);
    let c = wrapping_mul(le64(data, data.len() - 8), mul);
    let d = wrapping_mul(le64(data, data.len() - 16), K2);
    let first = wrapping_add(wrapping_add(rotr64(wrapping_add(a, b), 43), rotr64(c, 30)), d);
    let second = wrapping_add(wrapping_add(a, rotr64(wrapping_add(b, K2), 18)), c);
    hash_len_16_mul_spec(first, second, mul)
}

/// The weak hash of 32 bytes: a pair of words mixed from the first four words
/// of `chunk`. Where the whole input has more than 48 bytes and `chunk` holds
/// 48 or more, its fifth and sixth word are mixed in too. A chunk of fewer than
/// 32 bytes gives `(K0, K1)`.
pub open spec fn weak_hash_spec(chunk: Seq<u8>, len: nat) -> (u64, u64) {
    if chunk.len() < 32 {
        (K0, K1)
    } else {
        let d = le64(chunk, 24);
        let a0 = wrapping_add(le64(chunk, 0), le64(chunk, 0));
        let b = rotr64(wrapping_add(wrapping_add(le64(chunk, 8), a0), d), 21);
        let c = wrapping_add(le64(chunk, 16), a0);
        let a = wrapping_add(a0, wrapping_add(rotr64(a0, 44), b));
        let vf = wrapping_add(a, d);
        let vs = wrapping_add(c, rotr64(b, 10));
        if len > 48 && chunk.len() >= 48 {
            let wf = wrapping_add(
                vf,
                wrapping_add(wrapping_mul(shift_mix_spec(wrapping_mul(le64(chunk, 32), K2)), K0), a),
            );
            let ws = wrapping_add(
                vs,
                wrapping_mul(shift_mix_spec(wrapping_add(c, le64(chunk, 40))), K2),
            );
            (shift_mix_spec(wf), shift_mix_spec(ws))
        } else {
            (vf, vs)
        }
    }
}

/// The long path, taken above 32 bytes: three words seeded from the ends of
/// the input and the weak hashes of its first and of its last 32 bytes. Below
/// 33 bytes it is the middle path.
pub open spec fn city_large_spec(data: Seq<u8>) -> u64 {
    if data.len() < 33 {
        city_medium_spec(data)
    } else {
        let len = data.len();
        let v = weak_hash_spec(data, len);
        let w = weak_hash_spec(data.subrange(len - 32, len as int), len);
        let x = wrapping_add(wrapping_mul(wrapping_mul(le64(data, 0), K2), K2), le64(data, 16));
        let y = wrapping_add(
            wrapping_add(le64(data, 8), wrapping_mul(rotr64(x, 48), K2)),
            le64(data, 24),
        );
        let z = wrapping_add(
            wrapping_mul(wrapping_mul(le64(data, len - 8), K2), K2),
            le64(data, len - 16),
        );
        let v0 = wrapping_add(wrapping_mul(v.0, K2), w.1);
        let v1 = wrapping_add(wrapping_mul(v.1, K2), w.0);
        let a = wrapping_add(wrapping_add(wrapping_mul(wrapping_add(y, z), K2), v0), w.0);
        let b = wrapping_add(wrapping_add(wrapping_mul(wrapping_add(v1, w.1), K2), x), y);
        hash_len_16_mul_spec(a, b, K2)
    }
}

/// CityHash64 of `data`: the short path up to 16 bytes, the middle path up to
/// 32, the long path above.
pub open spec fn city_hash_64_spec(data: Seq<u8>) -> u64 {
    if data.len() <= 16 {
        city_small_spec(data)
    } else if data.len() <= 32 {
        city_medium_spec(data)
    } else {
        city_large_spec(data)
    }
}

/// CityHash64 of `data` under two seeds: the first is taken off the unseeded
/// hash, the second is folded in.
pub open spec fn city_hash_64_with_seeds_spec(data: Seq<u8>, seed0: u64, seed1: u64) -> u64 {
    hash_len_16_mul_spec(wrapping_sub(city_hash_64_spec(data), seed0), seed1, K_MUL)
}

/// CityHash64 of `data` under one seed: `K2` stands for the first of two.
pub open spec fn city_hash_64_with_seed_spec(data: Seq<u8>, seed: u64) -> u64 {
    city_hash_64_with_seeds_spec(data, K2, seed)
}

/// A word is read from its eight bytes: two sequences that hold the same
/// bytes there give the same word.
proof fn lemma_le64_agrees(a: Seq<u8>, at_a: int, b: Seq<u8>, at_b: int)
    requires
        a[at_a] == b[at_b],
        a[at_a + 1] == b[at_b + 1],
        a[at_a + 2] == b[at_b + 2],
        a[at_a + 3] == b[at_b + 3],
        a[at_a + 4] == b[at_b + 4],
        a[at_a + 5] == b[at_b + 5],
        a[at_a + 6] == b[at_b + 6],
        a[at_a + 7] == b[at_b + 7],
    ensures
        le64(a, at_a) == le64(b, at_b),
{
}

/// The long path reads the ends of its input and nothing else: two inputs of
/// one length above 48 that hold the same first 48 and the same last 32 bytes
/// have the same hash, whatever stands in between.
pub proof fn lemma_city_long_path_reads_the_ends(a: Seq<u8>, b: Seq<u8>)
    requires
        a.len() == b.len(),
        a.len() > 48,
        forall|k: int| 0 <= k < 48 ==> a[k] == b[k],
        forall|k: int| a.len() - 32 <= k < a.len() ==> a[k] == b[k],
    ensures
        city_hash_64_spec(a) == city_hash_64_spec(b),
{
    let len = a.len() as int;
    lemma_le64_agrees(a, 0, b, 0);
    lemma_le64_agrees(a, 8, b, 8);
    lemma_le64_agrees(a, 16, b, 16);
    lemma_le64_agrees(a, 24, b, 24);
    lemma_le64_agrees(a, 32, b, 32);
    lemma_le64_agrees(a, 40, b, 40);
    lemma_le64_agrees(a, len - 8, b, len - 8);
    lemma_le64_agrees(a, len - 16, b, len - 16);
    let tail_a = a.subrange(len - 32, len);
    let tail_b = b.subrange(len - 32, len);
    assert(tail_a =~= tail_b);
}

/// Rotates `val` right by `shift` bits.
pub fn rotate(val: u64, shift: u32) -> (rotated: u64)
    requires
        0 < shift < 64,
    ensures
        rotated == rotr64(val, shift),
{
    (val >> shift) | (val << (64 - shift))
}

/// Xors `val` with its own top 17 bits.
pub fn shift_mix(val: u64) -> (mixed: u64)
    ensures
        mixed == shift_mix_spec(val),
{
    val ^ (val >> 47)
}

/// Folds two words into one under `mul`.
pub fn hash_len_16_mul(u: u64, v: u64, mul: u64) -> (hash: u64)
    ensures
        hash == hash_len_16_mul_spec(u, v, mul),
{
    let mut a = (u ^ v).wrapping_mul(mul);
    a ^= a >> 47;
    let mut b = (v ^ a).wrapping_mul(mul);
    b ^= b >> 47;
    b = b.wrapping_mul(mul);
    b
}

/// A length as a 64-bit word.
fn length_word64(len: usize) -> (word: u64)
    ensures
        word == len64(len as nat),
{
    len as u64
}

/// The short path. It is meant for inputs of up to 16 bytes and defined for
/// every input: of a longer one it reads the first and the last eight bytes.
pub fn hash_bytes_small(bytes: &[u8]) -> (hash: u64)
    ensures
        hash == city_small_spec(bytes@),
{
    let len = bytes.len();
    if len >= 8 {
        let mul = K2.wrapping_add(length_word64(len).wrapping_mul(2));
        let a = fetch64(bytes, 0).wrapping_add(K2);
        let b = fetch64(bytes, len - 8);
        let c = rotate(b, 37).wrapping_mul(mul).wrapping_add(a);
        let d = rotate(a, 25).wrapping_add(b).wrapping_mul(mul);
        hash_len_16_mul(c, d, mul)
    } else if len >= 4 {
        let mul = K2.wrapping_add(length_word64(len).wrapping_mul(2));
        let a = fetch32(bytes, 0) as u64;
        let b = fetch32(bytes, len - 4) as u64;
        hash_len_16_mul(length_word64(len).wrapping_add(a << 3), b, mul)
    } else if len > 0 {
        let a = bytes[0] as u64;
        let b = bytes[len / 2] as u64;
        let c = bytes[len - 1] as u64;
        let y = a.wrapping_add(b << 8);
        let z = length_word64(len).wrapping_add(c << 2);
        shift_mix(y.wrapping_mul(K2) ^ z.wrapping_mul(K0)).wrapping_mul(K2)
    } else {
        K2
    }
}

/// The middle path. It is meant for inputs of 17 to 32 bytes and reads four
/// words, so it needs 16 bytes at the least.
pub fn hash_bytes_medium(bytes: &[u8]) -> (hash: u64)
    requires
        bytes.len() >= 16,
    ensures
        hash == city_medium_spec(bytes@),
{
    let len = bytes.len();
    let mul = K2.wrapping_add(length_word64(len).wrapping_mul(2));
    let a = fetch64(bytes, 0).wrapping_mul(K1);
    let b = fetch64(bytes, 8);
    let c = fetch64(bytes, len - 8).wrapping_mul(mul);
    let d = fetch64(bytes, len - 16).wrapping_mul(K2);
    let first = rotate(a.wrapping_add(b), 43).wrapping_add(rotate(c, 30)).wrapping_add(d);
    let second = a.wrapping_add(rotate(b.wrapping_add(K2), 18)).wrapping_add(c);
    hash_len_16_mul(first, second, mul)
}

/// Weakly hashes the first 32 bytes of `bytes`, or 48 of them where there are
/// that many and the whole input, of `len` bytes, has more than 48, into a
/// pair of words.
pub fn weak_hash_32_bytes_values(bytes: &[u8], len: usize) -> (pair: (u64, u64))
    ensures
        pair == weak_hash_spec(bytes@, len as nat),
{
    if bytes.len() < 32 {
        return (K0, K1);
    }
    let mut a = fetch64(bytes, 0);
    let mut b = fetch64(bytes, 8);
    let c = fetch64(bytes, 16);
    let d = fetch64(bytes, 24);
    a = a.wrapping_add(fetch64(bytes, 0));
    b = rotate(b.wrapping_add(a).wrapping_add(d), 21);
    let c = c.wrapping_add(a);
    a = a.wrapping_add(rotate(a, 44).wrapping_add(b));
    let mut vf = a.wrapping_add(d);
    let mut vs = c.wrapping_add(rotate(b, 10));
    if len > 48 && bytes.len() >= 48 {
        vf = vf.wrapping_add(
            shift_mix(fetch64(bytes, 32).wrapping_mul(K2)).wrapping_mul(K0).wrapping_add(a),
        );
        vs = vs.wrapping_add(shift_mix(c.wrapping_add(fetch64(bytes, 8 + 32))).wrapping_mul(K2));
        vf = shift_mix(vf);
        vs = shift_mix(vs);
    }
    (vf, vs)
}

/// The long path, for inputs of more than 32 bytes; a shorter one goes to the
/// middle path, which needs 16 bytes at the least.
pub fn hash_bytes_large(bytes: &[u8]) -> (hash: u64)
    requires
        bytes.len() >= 16,
    ensures
        hash == city_large_spec(bytes@),
{
    let len = bytes.len();
    if len < 33 {
        return hash_bytes_medium(bytes);
    }
    let mut x = fetch64(bytes, 0).wrapping_mul(K2);
    let mut y = fetch64(bytes, 8);
    let mut z = fetch64(bytes, len - 8).wrapping_mul(K2);

    let mut v = weak_hash_32_bytes_values(bytes, len);
    let w = weak_hash_32_bytes_values(slice_subrange(bytes, len - 32, len), len);

    x = x.wrapping_mul(K2).wrapping_add(fetch64(bytes, 16));
    y = y.wrapping_add(rotate(x, 48).wrapping_mul(K2)).wrapping_add(fetch64(bytes, 24));
    z = z.wrapping_mul(K2).wrapping_add(fetch64(bytes, len - 16));

    v.0 = v.0.wrapping_mul(K2).wrapping_add(w.1);
    v.1 = v.1.wrapping_mul(K2).wrapping_add(w.0);

    let a = y.wrapping_add(z).wrapping_mul(K2).wrapping_add(v.0).wrapping_add(w.0);
    let b = v.1.wrapping_add(w.1).wrapping_mul(K2).wrapping_add(x).wrapping_add(y);
    hash_len_16_mul(a, b, K2)
}

/// What an incremental CityHash64 hasher stands for: the value it gives while
/// it is empty, and the bytes written so far.
pub struct CityState {
    pub seed: u64,
    pub bytes: Seq<u8>,
}

/// The digest of a hasher in `state`: the seed while nothing has been
/// written, then the hash of all the bytes written.
pub open spec fn city_finish_spec(state: CityState) -> u64 {
    if state.bytes.len() == 0 {
        state.seed
    } else {
        city_hash_64_spec(state.bytes)
    }
}

/// A hasher that was fed `data`, in whatever pieces, gives the hash of `data`,
/// unless `data` is empty: then it gives its seed.
pub proof fn lemma_city_stream_hashes_input(data: Seq<u8>)
    requires
        data.len() > 0,
    ensures
        city_finish_spec(
            <CityHasher64 as crate::hasher::StreamHasher>::absorb(
                <CityHasher64 as crate::hasher::StreamHasher>::start(),
                data,
            ),
        ) == city_hash_64_spec(data),
{
    assert(Seq::<u8>::empty() + data == data);
}

/// Incremental CityHash64. The algorithm needs the whole input at once, so the
/// hasher keeps what is written and hashes it when asked.
#[derive(Debug, Clone)]
pub struct CityHasher64 {
    state: u64,
    buffer: Vec<u8>,
}

impl View for CityHasher64 {
    type V = CityState;

    closed spec fn view(&self) -> CityState {
        CityState { seed: self.state, bytes: self.buffer@ }
    }
}

impl CityHasher64 {
    /// A hasher that has seen no bytes. Until it sees one, its digest is zero.
    pub fn new() -> (hasher: Self)
        ensures
            hasher@ == (CityState { seed: 0, bytes: Seq::empty() }),
    {
        Self { state: 0, buffer: Vec::new() }
    }

    /// CityHash64 of `bytes`.
    pub fn hash_bytes(bytes: &[u8]) -> (hash: u64)
        ensures
            hash == city_hash_64_spec(bytes@),
    {
        if bytes.len() <= 16 {
            hash_bytes_small(bytes)
        } else if bytes.len() <= 32 {
            hash_bytes_medium(bytes)
        } else {
            hash_bytes_large(bytes)
        }
    }

    /// The digest of the bytes written so far.
    pub fn finish_raw(&self) -> (hash: u64)
        ensures
            hash == city_finish_spec(self@),
    {
        if !self.buffer.is_empty() {
            Self::hash_bytes(self.buffer.as_slice())
        } else {
            self.state
        }
    }

    /// Keeps `bytes` behind what was written before.
    fn append(&mut self, bytes: &[u8])
        ensures
            final(self)@ == (CityState { seed: old(self)@.seed, bytes: old(self)@.bytes + bytes@ }),
    {
        self.buffer.extend_from_slice(bytes);
        assert(self.buffer@ =~= old(self).buffer@ + bytes@);
    }
}

impl Default for CityHasher64 {
    fn default() -> (hasher: Self)
        ensures
            hasher@ == (CityState { seed: 0, bytes: Seq::empty() }),
    {
        Self::new()
    }
}

impl std::hash::Hasher for CityHasher64 {
    /// The digest of the bytes written so far.
    fn finish(&self) -> (digest: u64)
        ensures
            digest == city_finish_spec(self@),
    {
        self.finish_raw()
    }

    /// Keeps `bytes` behind what was written before.
    fn write(&mut self, bytes: &[u8])
        ensures
            final(self)@ == (CityState { seed: old(self)@.seed, bytes: old(self)@.bytes + bytes@ }),
    {
        self.append(bytes);
    }
}

impl crate::hasher::StreamHasher for CityHasher64 {
    type State = CityState;

    open spec fn state(&self) -> CityState {
        self@
    }

    open spec fn start() -> CityState {
        CityState { seed: 0, bytes: Seq::empty() }
    }

    open spec fn absorb(state: CityState, bytes: Seq<u8>) -> CityState {
        CityState { seed: state.seed, bytes: state.bytes + bytes }
    }

    open spec fn digest(state: CityState) -> u64 {
        city_finish_spec(state)
    }

    proof fn absorb_concat(state: CityState, a: Seq<u8>, b: Seq<u8>) {
        assert((state.bytes + a) + b == state.bytes + (a + b));
    }

    fn fresh() -> (hasher: Self) {
        Self::new()
    }

    fn write(&mut self, bytes: &[u8]) {
        self.append(bytes);
    }

    fn finish(&self) -> (digest: u64) {
        self.finish_raw()
    }
}

/// What an incremental seeded CityHash64 hasher stands for: its seed, if it
/// has one, and the bytes written so far.
pub struct CitySeededState {
    pub seed: Option<u64>,
    pub bytes: Seq<u8>,
}

/// The digest of a seeded hasher in `state`: the hash of all the bytes
/// written, under the seed where there is one.
pub open spec fn city_seeded_finish_spec(state: CitySeededState) -> u64 {
    match state.seed {
        Some(seed) => city_hash_64_with_seed_spec(state.bytes, seed),
        None => city_hash_64_spec(state.bytes),
    }
}

/// A seeded hasher that was fed `data`, in whatever pieces, gives the seeded
/// hash of `data`; one without a seed gives the plain hash.
pub proof fn lemma_city_seeded_stream_hashes_input(seed: Option<u64>, data: Seq<u8>)
    ensures
        city_seeded_finish_spec(
            <CityHashHasher as crate::hasher::StreamHasher>::absorb(
                CitySeededState { seed, bytes: Seq::empty() },
                data,
            ),
        ) == match seed {
            Some(s) => city_hash_64_with_seed_spec(data, s),
            None => city_hash_64_spec(data),
        },
{
    assert(Seq::<u8>::empty() + data == data);
}

/// Incremental CityHash64 that can carry a seed. It keeps what is written and
/// hashes it when asked; while it is empty it gives the hash of the empty
/// input.
pub struct CityHashHasher {
    buffer: Vec<u8>,
    seed: Option<u64>,
}

impl View for CityHashHasher {
    type V = CitySeededState;

    closed spec fn view(&self) -> CitySeededState {
        CitySeededState { seed: self.seed, bytes: self.buffer@ }
    }
}

impl CityHashHasher {
    /// A hasher without a seed that has seen no bytes.
    pub fn new() -> (hasher: Self)
        ensures
            hasher@ == (CitySeededState { seed: None, bytes: Seq::empty() }),
    {
        Self { buffer: Vec::new(), seed: None }
    }

    /// A hasher under `seed` that has seen no bytes.
    pub fn with_seed(seed: u64) -> (hasher: Self)
        ensures
            hasher@ == (CitySeededState { seed: Some(seed), bytes: Seq::empty() }),
    {
        Self { buffer: Vec::new(), seed: Some(seed) }
    }

    /// The hash of the bytes written so far, under the seed where there is one.
    fn digest(&self) -> (hash: u64)
        ensures
            hash == city_seeded_finish_spec(self@),
    {
        match self.seed {
            Some(seed) => city_hash_64_with_seed(self.buffer.as_slice(), seed),
            None => city_hash_64(self.buffer.as_slice()),
        }
    }

    /// Keeps `bytes` behind what was written before.
    fn append(&mut self, bytes: &[u8])
        ensures
            final(self)@ == (CitySeededState {
                seed: old(self)@.seed,
                bytes: old(self)@.bytes + bytes@,
            }),
    {
        self.buffer.extend_from_slice(bytes);
        assert(self.buffer@ =~= old(self).buffer@ + bytes@);
    }
}

impl Default for CityHashHasher {
    fn default() -> (hasher: Self)
        ensures
            hasher@ == (CitySeededState { seed: None, bytes: Seq::empty() }),
    {
        Self::new()
    }
}

impl std::hash::Hasher for CityHashHasher {
    /// The hash of the bytes written so far, under the seed where there is one.
    fn finish(&self) -> (digest: u64)
        ensures
            digest == city_seeded_finish_spec(self@),
    {
        self.digest()
    }

    /// Keeps `bytes` behind what was written before.
    fn write(&mut self, bytes: &[u8])
        ensures
            final(self)@ == (CitySeededState {
                seed: old(self)@.seed,
                bytes: old(self)@.bytes + bytes@,
            }),
    {
        self.append(bytes);
    }
}

impl crate::hasher::StreamHasher for CityHashHasher {
    type State = CitySeededState;

    open spec fn state(&self) -> CitySeededState {
        self@
    }

    open spec fn start() -> CitySeededState {
        CitySeededState { seed: None, bytes: Seq::empty() }
    }

    open spec fn absorb(state: CitySeededState, bytes: Seq<u8>) -> CitySeededState {
        CitySeededState { seed: state.seed, bytes: state.bytes + bytes }
    }

    open spec fn digest(state: CitySeededState) -> u64 {
        city_seeded_finish_spec(state)
    }

    proof fn absorb_concat(state: CitySeededState, a: Seq<u8>, b: Seq<u8>) {
        assert((state.bytes + a) + b == state.bytes + (a + b));
    }

    fn fresh() -> (hasher: Self) {
        Self::new()
    }

    fn write(&mut self, bytes: &[u8]) {
        self.append(bytes);
    }

    fn finish(&self) -> (digest: u64) {
        self.digest()
    }
}

/// CityHash64 of `data`. Every byte sequence is accepted; the empty one hashes
/// to `K2`.
pub fn city_hash_64(data: &[u8]) -> (hash: u64)
    ensures
        hash == city_hash_64_spec(data@),
{
    CityHasher64::hash_bytes(data)
}

/// CityHash64 of `data` under two seeds.
pub fn city_hash_64_with_seeds(data: &[u8], seed0: u64, seed1: u64) -> (hash: u64)
    ensures
        hash == city_hash_64_with_seeds_spec(data@, seed0, seed1),
{
    hash_len_16_mul(city_hash_64(data).wrapping_sub(seed0), seed1, K_MUL)
}

/// CityHash64 of `data` under one seed.
pub fn city_hash_64_with_seed(data: &[u8], seed: u64) -> (hash: u64)
    ensures
        hash == city_hash_64_with_seed_spec(data@, seed),
{
    city_hash_64_with_seeds(data, K2, seed)
}

} // verus!
