//! MurmurHash3 with 32 bits of output.
//!
//! The input is read as little-endian blocks of four bytes. Every block is
//! scrambled and folded into the state; the one to three bytes left over are
//! scrambled and xored in without the fold; the length is xored in and the
//! state goes through a final avalanche.

use crate::bits::{
    byte_or_zero, fetch32, fetch_partial32, le32, le_partial32, rotate_left32, rotl32,
};
use vstd::prelude::*;
use vstd::wrapping::u32_specs;

verus! {

/// First multiplier of the block scramble.
pub const C1_32: u32 = 0xcc9e2d51;

/// Second multiplier of the block scramble.
pub const C2_32: u32 = 0x1b873593;

/// Constant added after every block.
pub const N_32: u32 = 0xe6546b64;

/// First multiplier of the final avalanche.
pub const FMIX_32_1: u32 = 0x85ebca6b;

/// Second multiplier of the final avalanche.
pub const FMIX_32_2: u32 = 0xc2b2ae35;

/// A length as the 32-bit word that is xored into the state: its low 32 bits.
pub open spec fn len32(len: nat) -> u32 {
    (len % 0x1_0000_0000) as u32
}

/// The final avalanche of a 32-bit lane.
pub open spec fn fmix32_spec(h: u32) -> u32 {
    let a = h ^ (h >> 16);
    let b = u32_specs::wrapping_mul(a, FMIX_32_1);
    let c = b ^ (b >> 13);
    let d = u32_specs::wrapping_mul(c, FMIX_32_2);
    d ^ (d >> 16)
}

/// A block, or the bytes of a tail, scrambled before it meets the state.
pub open spec fn scramble32_spec(k: u32) -> u32 {
    u32_specs::wrapping_mul(rotl32(u32_specs::wrapping_mul(k, C1_32), 15), C2_32)
}

/// The state after the block `k` has been folded into `h`.
pub open spec fn round32_spec(h: u32, k: u32) -> u32 {
    u32_specs::wrapping_add(
        u32_specs::wrapping_mul(rotl32(h ^ scramble32_spec(k), 13), 5),
        N_32,
    )
}

/// The state after the first `n` blocks of `data` have been folded into `h`.
pub open spec fn blocks32_spec(h: u32, data: Seq<u8>, n: nat) -> u32
    decreases n,
{
    if n == 0 {
        h
    } else {
        round32_spec(blocks32_spec(h, data, (n - 1) as nat), le32(data, 4 * (n - 1)))
    }
}

/// The state after a tail of `count` bytes, fewer than four, that starts at
/// `at`: an empty tail leaves the state alone.
pub open spec fn tail32_spec(h: u32, data: Seq<u8>, at: int, count: int) -> u32 {
    if count <= 0 {
        h
    } else {
        h ^ scramble32_spec(le_partial32(data, at, count))
    }
}

/// The hash, given the state after blocks and tail and the length word.
pub open spec fn finalize32_spec(h: u32, length: u32) -> u32 {
    fmix32_spec(h ^ length)
}

/// MurmurHash3, 32 bits, of `data` under `seed`.
pub open spec fn murmur3_32_spec(data: Seq<u8>, seed: u32) -> u32 {
    let blocks = data.len() / 4;
    let h = blocks32_spec(seed, data, blocks);
    let tail = tail32_spec(h, data, (4 * blocks) as int, data.len() - 4 * blocks);
    finalize32_spec(tail, len32(data.len()))
}

/// The final avalanche of a 32-bit lane.
pub fn fmix32(h: u32) -> (mixed: u32)
    ensures
        mixed == fmix32_spec(h),
{
    let mut h = h;
    h ^= h >> 16;
    h = h.wrapping_mul(FMIX_32_1);
    h ^= h >> 13;
    h = h.wrapping_mul(FMIX_32_2);
    h ^= h >> 16;
    h
}

fn scramble32(k: u32) -> (scrambled: u32)
    ensures
        scrambled == scramble32_spec(k),
{
    rotate_left32(k.wrapping_mul(C1_32), 15).wrapping_mul(C2_32)
}

fn round32(h: u32, k: u32) -> (next: u32)
    ensures
        next == round32_spec(h, k),
{
    rotate_left32(h ^ scramble32(k), 13).wrapping_mul(5).wrapping_add(N_32)
}

fn tail32(h: u32, bytes: &[u8], at: usize, count: usize) -> (next: u32)
    requires
        count < 4,
        at + count <= bytes.len(),
    ensures
        next == tail32_spec(h, bytes@, at as int, count as int),
{
    if count == 0 {
        h
    } else {
        h ^ scramble32(fetch_partial32(bytes, at, count))
    }
}

/// The low 32 bits of a length.
pub fn length_word(len: usize) -> (word: u32)
    ensures
        word == len32(len as nat),
{
    ((len as u64) % 0x1_0000_0000u64) as u32
}

/// MurmurHash3, 32 bits, of `data` under `seed`. Every byte sequence and every
/// seed is accepted.
pub fn murmurhash3_32(data: &[u8], seed: u32) -> (hash: u32)
    ensures
        hash == murmur3_32_spec(data@, seed),
{
    let len = data.len();
    let nblocks = len / 4;
    let mut h1 = seed;
    let mut i: usize = 0;
    while i < nblocks
        invariant
            i <= nblocks,
            nblocks == len / 4,
            len == data.len(),
            h1 == blocks32_spec(seed, data@, i as nat),
        decreases nblocks - i,
    {
        let k1 = fetch32(data, i * 4);
        h1 = round32(h1, k1);
        i += 1;
    }
    h1 = tail32(h1, data, nblocks * 4, len - nblocks * 4);
    fmix32(h1 ^ length_word(len))
}

/// What an incremental 32-bit hasher stands for: the state after the whole
/// blocks seen so far, the bytes that wait for their block to fill, and the
/// number of bytes seen so far, as its low 32 bits.
pub struct Murmur32State {
    pub h: u32,
    pub pending: Seq<u8>,
    pub count: u32,
}

/// The state of a hasher under `seed` that has seen no bytes.
pub open spec fn murmur32_init(seed: u32) -> Murmur32State {
    Murmur32State { h: seed, pending: Seq::empty(), count: 0 }
}

/// The state after `bytes` have been written: the bytes go behind those that
/// were waiting, every whole block of the result is folded in, and what does
/// not fill a block waits in its turn.
pub open spec fn murmur32_absorb(state: Murmur32State, bytes: Seq<u8>) -> Murmur32State {
    let all = state.pending + bytes;
    let blocks = all.len() / 4;
    Murmur32State {
        h: blocks32_spec(state.h, all, blocks),
        pending: all.skip((4 * blocks) as int),
        count: len32((state.count + bytes.len()) as nat),
    }
}

/// The hash that a hasher in `state` gives: the waiting bytes are its tail.
pub open spec fn murmur32_finish(state: Murmur32State) -> u32 {
    finalize32_spec(tail32_spec(state.h, state.pending, 0, state.pending.len() as int), state.count)
}

/// The blocks of a sequence are read from a prefix of it: behind the blocks
/// read, the sequence may be anything.
pub proof fn lemma_blocks32_prefix(h: u32, a: Seq<u8>, b: Seq<u8>, n: nat)
    requires
        4 * n <= a.len(),
        4 * n <= b.len(),
        forall|k: int| 0 <= k < 4 * n ==> a[k] == b[k],
    ensures
        blocks32_spec(h, a, n) == blocks32_spec(h, b, n),
    decreases n,
{
    if n > 0 {
        lemma_blocks32_prefix(h, a, b, (n - 1) as nat);
        let at = 4 * (n - 1);
        assert(a[at] == b[at] && a[at + 1] == b[at + 1] && a[at + 2] == b[at + 2] && a[at + 3]
            == b[at + 3]);
    }
}

/// Blocks can be folded in two runs: `n` blocks of `a`, which holds exactly
/// those, and then `m` blocks of `b`.
pub proof fn lemma_blocks32_split(h: u32, a: Seq<u8>, b: Seq<u8>, n: nat, m: nat)
    requires
        a.len() == 4 * n,
        4 * m <= b.len(),
    ensures
        blocks32_spec(h, a + b, n + m) == blocks32_spec(blocks32_spec(h, a, n), b, m),
    decreases m,
{
    let all = a + b;
    if m == 0 {
        lemma_blocks32_prefix(h, all, a, n);
    } else {
        lemma_blocks32_split(h, a, b, n, (m - 1) as nat);
        let at = 4 * (m - 1);
        assert(all[4 * n + at] == b[at] && all[4 * n + at + 1] == b[at + 1] && all[4 * n + at + 2]
            == b[at + 2] && all[4 * n + at + 3] == b[at + 3]);
        assert(4 * (n + m - 1) == 4 * n + at);
    }
}

/// The sum of two lengths has the length word that the sum of a length word
/// and a length has.
pub proof fn lemma_len32_add(count: u32, a: nat, b: nat)
    ensures
        len32((len32((count + a) as nat) + b) as nat) == len32((count + a + b) as nat),
{
    let m = 0x1_0000_0000int;
    let x = count + a;
    assert(((x % m) + b) % m == (x + b) % m) by {
        vstd::arithmetic::div_mod::lemma_add_mod_noop(x, b as int, m);
        vstd::arithmetic::div_mod::lemma_add_mod_noop(x % m, b as int, m);
        vstd::arithmetic::div_mod::lemma_mod_twice(x, m);
    }
}

/// Concatenation invariance: writing `a` and then `b` leaves the state that
/// writing `a + b` at once leaves, wherever the cut falls.
pub proof fn lemma_murmur32_absorb_concat(state: Murmur32State, a: Seq<u8>, b: Seq<u8>)
    ensures
        murmur32_absorb(murmur32_absorb(state, a), b) == murmur32_absorb(state, a + b),
{
    let first = state.pending + a;
    let n = first.len() / 4;
    let mid = murmur32_absorb(state, a);
    let second = mid.pending + b;
    let m = second.len() / 4;
    let all = state.pending + (a + b);
    assert(all == first.take((4 * n) as int) + second);
    assert(all.len() / 4 == n + m);
    lemma_blocks32_prefix(state.h, first, first.take((4 * n) as int), n);
    lemma_blocks32_split(state.h, first.take((4 * n) as int), second, n, m);
    assert(all.skip((4 * (n + m)) as int) == second.skip((4 * m) as int));
    lemma_len32_add(state.count, a.len(), b.len());
}

/// A hasher that was fed `data`, in whatever pieces, gives the hash of `data`.
pub proof fn lemma_murmur32_stream_hashes_input(seed: u32, data: Seq<u8>)
    ensures
        murmur32_finish(murmur32_absorb(murmur32_init(seed), data)) == murmur3_32_spec(data, seed),
{
    let all = Seq::<u8>::empty() + data;
    assert(all == data);
    let blocks = data.len() / 4;
    let rest = data.skip((4 * blocks) as int);
    assert(le_partial32(rest, 0, rest.len() as int) == le_partial32(
        data,
        (4 * blocks) as int,
        data.len() - 4 * blocks,
    ));
}

/// Multiplying by an odd constant, wrapping, loses nothing: five and the two
/// factors of the avalanche can each be undone.
proof fn lemma_mul_is_injective(a: u32, b: u32)
    ensures
        u32_specs::wrapping_mul(a, 5) == u32_specs::wrapping_mul(b, 5) ==> a == b,
        u32_specs::wrapping_mul(a, FMIX_32_1) == u32_specs::wrapping_mul(b, FMIX_32_1) ==> a == b,
        u32_specs::wrapping_mul(a, FMIX_32_2) == u32_specs::wrapping_mul(b, FMIX_32_2) ==> a == b,
{
    assert(u32_specs::wrapping_mul(a, 5) == u32_specs::wrapping_mul(b, 5) ==> a == b)
        by (bit_vector);
    assert(u32_specs::wrapping_mul(a, FMIX_32_1) == u32_specs::wrapping_mul(b, FMIX_32_1) ==> a
        == b) by (bit_vector);
    assert(u32_specs::wrapping_mul(a, FMIX_32_2) == u32_specs::wrapping_mul(b, FMIX_32_2) ==> a
        == b) by (bit_vector);
}

/// Xoring a word with its own high bits, shifted down, loses nothing; nor
/// does rotating it, xoring it with a fixed word, or adding a fixed word.
proof fn lemma_bit_steps_are_injective(a: u32, b: u32, k: u32)
    ensures
        a ^ (a >> 16) == b ^ (b >> 16) ==> a == b,
        a ^ (a >> 13) == b ^ (b >> 13) ==> a == b,
        rotl32(a, 13) == rotl32(b, 13) ==> a == b,
        a ^ k == b ^ k ==> a == b,
        u32_specs::wrapping_add(a, k) == u32_specs::wrapping_add(b, k) ==> a == b,
{
    assert(a ^ (a >> 16) == b ^ (b >> 16) ==> a == b) by (bit_vector);
    assert(a ^ (a >> 13) == b ^ (b >> 13) ==> a == b) by (bit_vector);
    assert(rotl32(a, 13) == rotl32(b, 13) ==> a == b) by (bit_vector);
    assert(a ^ k == b ^ k ==> a == b) by (bit_vector);
}

/// The final avalanche loses nothing: different words stay different.
pub proof fn lemma_fmix32_is_injective(a: u32, b: u32)
    requires
        fmix32_spec(a) == fmix32_spec(b),
    ensures
        a == b,
{
    let a1 = a ^ (a >> 16);
    let b1 = b ^ (b >> 16);
    let a2 = u32_specs::wrapping_mul(a1, FMIX_32_1);
    let b2 = u32_specs::wrapping_mul(b1, FMIX_32_1);
    let a3 = a2 ^ (a2 >> 13);
    let b3 = b2 ^ (b2 >> 13);
    let a4 = u32_specs::wrapping_mul(a3, FMIX_32_2);
    let b4 = u32_specs::wrapping_mul(b3, FMIX_32_2);
    lemma_bit_steps_are_injective(a4, b4, 0);
    lemma_mul_is_injective(a3, b3);
    lemma_bit_steps_are_injective(a2, b2, 0);
    lemma_mul_is_injective(a1, b1);
    lemma_bit_steps_are_injective(a, b, 0);
}

/// Folding a block in loses nothing of the state before it.
pub proof fn lemma_round32_is_injective(a: u32, b: u32, k: u32)
    requires
        round32_spec(a, k) == round32_spec(b, k),
    ensures
        a == b,
{
    let s = scramble32_spec(k);
    let a1 = rotl32(a ^ s, 13);
    let b1 = rotl32(b ^ s, 13);
    let a2 = u32_specs::wrapping_mul(a1, 5);
    let b2 = u32_specs::wrapping_mul(b1, 5);
    lemma_bit_steps_are_injective(a2, b2, N_32);
    lemma_mul_is_injective(a1, b1);
    lemma_bit_steps_are_injective(a ^ s, b ^ s, 0);
    lemma_bit_steps_are_injective(a, b, s);
}

/// Folding any number of blocks in loses nothing of the state before them.
pub proof fn lemma_blocks32_is_injective(a: u32, b: u32, data: Seq<u8>, n: nat)
    requires
        blocks32_spec(a, data, n) == blocks32_spec(b, data, n),
    ensures
        a == b,
    decreases n,
{
    if n > 0 {
        lemma_round32_is_injective(
            blocks32_spec(a, data, (n - 1) as nat),
            blocks32_spec(b, data, (n - 1) as nat),
            le32(data, 4 * (n - 1)),
        );
        lemma_blocks32_is_injective(a, b, data, (n - 1) as nat);
    }
}

/// Seed sensitivity: for every input, the empty one too, two different seeds
/// give two different 32-bit hashes.
pub proof fn lemma_murmur32_seeds_give_different_hashes(data: Seq<u8>, seed1: u32, seed2: u32)
    requires
        seed1 != seed2,
    ensures
        murmur3_32_spec(data, seed1) != murmur3_32_spec(data, seed2),
{
    let blocks = data.len() / 4;
    let at = (4 * blocks) as int;
    let count = data.len() - 4 * blocks;
    let h1 = blocks32_spec(seed1, data, blocks);
    let h2 = blocks32_spec(seed2, data, blocks);
    let t1 = tail32_spec(h1, data, at, count);
    let t2 = tail32_spec(h2, data, at, count);
    let length = len32(data.len());
    if murmur3_32_spec(data, seed1) == murmur3_32_spec(data, seed2) {
        lemma_fmix32_is_injective(t1 ^ length, t2 ^ length);
        lemma_bit_steps_are_injective(t1, t2, length);
        lemma_bit_steps_are_injective(h1, h2, scramble32_spec(le_partial32(data, at, count)));
        lemma_blocks32_is_injective(seed1, seed2, data, blocks);
    }
}

/// The scramble loses nothing: two words stay two words.
pub proof fn lemma_scramble32_is_injective(j: u32, k: u32)
    requires
        scramble32_spec(j) == scramble32_spec(k),
    ensures
        j == k,
{
    let j1 = u32_specs::wrapping_mul(j, C1_32);
    let k1 = u32_specs::wrapping_mul(k, C1_32);
    let j2 = rotl32(j1, 15);
    let k2 = rotl32(k1, 15);
    assert(u32_specs::wrapping_mul(j2, C2_32) == u32_specs::wrapping_mul(k2, C2_32) ==> j2 == k2)
        by (bit_vector);
    assert(rotl32(j1, 15) == rotl32(k1, 15) ==> j1 == k1) by (bit_vector);
    assert(u32_specs::wrapping_mul(j, C1_32) == u32_specs::wrapping_mul(k, C1_32) ==> j == k)
        by (bit_vector);
}

/// A word shows each of its four bytes: two words are the same only where
/// every byte is.
proof fn lemma_word_shows_its_bytes(a0: u32, a1: u32, a2: u32, a3: u32, b0: u32, b1: u32, b2: u32, b3: u32)
    requires
        a0 < 256 && a1 < 256 && a2 < 256 && a3 < 256,
        b0 < 256 && b1 < 256 && b2 < 256 && b3 < 256,
        (a0 | (a1 << 8) | (a2 << 16) | (a3 << 24)) == (b0 | (b1 << 8) | (b2 << 16) | (b3 << 24)),
    ensures
        a0 == b0 && a1 == b1 && a2 == b2 && a3 == b3,
{
    assert(a0 < 256 && a1 < 256 && a2 < 256 && a3 < 256 && b0 < 256 && b1 < 256 && b2 < 256 && b3
        < 256 && (a0 | (a1 << 8) | (a2 << 16) | (a3 << 24)) == (b0 | (b1 << 8) | (b2 << 16) | (b3
        << 24)) ==> a0 == b0 && a1 == b1 && a2 == b2 && a3 == b3) by (bit_vector);
}

/// Two partial words of the same number of bytes are the same only where
/// every byte read is: the byte `k` places in, for one.
pub proof fn lemma_le_partial32_is_injective(
    a: Seq<u8>,
    at_a: int,
    b: Seq<u8>,
    at_b: int,
    count: int,
    k: int,
)
    requires
        le_partial32(a, at_a, count) == le_partial32(b, at_b, count),
        0 <= k < count,
        k < 4,
    ensures
        a[at_a + k] == b[at_b + k],
{
    lemma_word_shows_its_bytes(
        byte_or_zero(a, at_a, 0, count),
        byte_or_zero(a, at_a, 1, count),
        byte_or_zero(a, at_a, 2, count),
        byte_or_zero(a, at_a, 3, count),
        byte_or_zero(b, at_b, 0, count),
        byte_or_zero(b, at_b, 1, count),
        byte_or_zero(b, at_b, 2, count),
        byte_or_zero(b, at_b, 3, count),
    );
    assert(byte_or_zero(a, at_a, k, count) == byte_or_zero(b, at_b, k, count));
}

/// Folding two different blocks into one state leaves two different states.
pub proof fn lemma_round32_sees_the_block(h: u32, j: u32, k: u32)
    requires
        round32_spec(h, j) == round32_spec(h, k),
    ensures
        j == k,
{
    let sj = scramble32_spec(j);
    let sk = scramble32_spec(k);
    let j1 = rotl32(h ^ sj, 13);
    let k1 = rotl32(h ^ sk, 13);
    let j2 = u32_specs::wrapping_mul(j1, 5);
    let k2 = u32_specs::wrapping_mul(k1, 5);
    lemma_bit_steps_are_injective(j2, k2, N_32);
    lemma_mul_is_injective(j1, k1);
    lemma_bit_steps_are_injective(h ^ sj, h ^ sk, 0);
    assert(h ^ sj == h ^ sk ==> sj == sk) by (bit_vector);
    lemma_scramble32_is_injective(j, k);
}

/// Two states that differ after `from` blocks still differ after `upto`,
/// where the blocks in between are the same in both inputs.
proof fn lemma_blocks32_stay_apart(
    seed_a: u32,
    a: Seq<u8>,
    seed_b: u32,
    b: Seq<u8>,
    from: nat,
    upto: nat,
)
    requires
        from <= upto,
        blocks32_spec(seed_a, a, from) != blocks32_spec(seed_b, b, from),
        forall|k: int| 4 * from <= k < 4 * upto ==> a[k] == b[k],
    ensures
        blocks32_spec(seed_a, a, upto) != blocks32_spec(seed_b, b, upto),
    decreases upto,
{
    if upto > from {
        lemma_blocks32_stay_apart(seed_a, a, seed_b, b, from, (upto - 1) as nat);
        let at = 4 * (upto - 1);
        assert(a[at] == b[at] && a[at + 1] == b[at + 1] && a[at + 2] == b[at + 2] && a[at + 3]
            == b[at + 3]);
        let ha = blocks32_spec(seed_a, a, (upto - 1) as nat);
        let hb = blocks32_spec(seed_b, b, (upto - 1) as nat);
        let k = le32(a, at);
        assert(le32(b, at) == k);
        if round32_spec(ha, k) == round32_spec(hb, k) {
            lemma_round32_is_injective(ha, hb, k);
        }
    }
}

/// Two inputs that differ in one byte and in nothing else have two different
/// hashes under every seed: no change to a single byte, so to a single bit,
/// goes unseen.
pub proof fn lemma_murmur32_sees_one_changed_byte(seed: u32, a: Seq<u8>, b: Seq<u8>, at: int)
    requires
        a.len() == b.len(),
        0 <= at < a.len(),
        a[at] != b[at],
        forall|i: int| 0 <= i < a.len() && i != at ==> a[i] == b[i],
    ensures
        murmur3_32_spec(a, seed) != murmur3_32_spec(b, seed),
{
    let blocks = a.len() / 4;
    let end = (4 * blocks) as int;
    let count = a.len() - 4 * blocks;
    let ha = blocks32_spec(seed, a, blocks);
    let hb = blocks32_spec(seed, b, blocks);
    let ta = tail32_spec(ha, a, end, count);
    let tb = tail32_spec(hb, b, end, count);
    let length = len32(a.len());
    if at < end {
        let block = (at / 4) as nat;
        let start = (4 * block) as int;
        lemma_blocks32_prefix(seed, a, b, block);
        let h = blocks32_spec(seed, a, block);
        if le32(a, start) == le32(b, start) {
            lemma_le_partial32_is_injective(a, start, b, start, 4, at - start);
        }
        if round32_spec(h, le32(a, start)) == round32_spec(h, le32(b, start)) {
            lemma_round32_sees_the_block(h, le32(a, start), le32(b, start));
        }
        lemma_blocks32_stay_apart(seed, a, seed, b, block + 1, blocks);
        assert(ha != hb);
        assert(le_partial32(a, end, count) == le_partial32(b, end, count));
        lemma_bit_steps_are_injective(ha, hb, scramble32_spec(le_partial32(a, end, count)));
    } else {
        lemma_blocks32_prefix(seed, a, b, blocks);
        assert(ha == hb);
        let wa = le_partial32(a, end, count);
        let wb = le_partial32(b, end, count);
        if wa == wb {
            lemma_le_partial32_is_injective(a, end, b, end, count, at - end);
        }
        if scramble32_spec(wa) == scramble32_spec(wb) {
            lemma_scramble32_is_injective(wa, wb);
        }
        let sa = scramble32_spec(wa);
        let sb = scramble32_spec(wb);
        assert(ha ^ sa == ha ^ sb ==> sa == sb) by (bit_vector);
    }
    assert(ta != tb);
    if murmur3_32_spec(a, seed) == murmur3_32_spec(b, seed) {
        lemma_fmix32_is_injective(ta ^ length, tb ^ length);
        lemma_bit_steps_are_injective(ta, tb, length);
    }
}

/// Incremental MurmurHash3, 32 bits. Bytes that do not fill a block yet are
/// kept until they do, so the hash depends on the bytes written and not on how
/// they were cut into writes.
#[derive(Debug, Copy, Clone)]
pub struct MurmurHasher32 {
    state: u32,
    length: u32,
    buffer: [u8; 4],
}

impl View for MurmurHasher32 {
    type V = Murmur32State;

    closed spec fn view(&self) -> Murmur32State {
        Murmur32State {
            h: self.state,
            pending: self.buffer@.take((self.length % 4) as int),
            count: self.length,
        }
    }
}

impl MurmurHasher32 {
    /// A hasher under `seed` that has seen no bytes.
    pub fn new(seed: u32) -> (hasher: Self)
        ensures
            hasher@ == murmur32_init(seed),
    {
        let hasher = Self { state: seed, length: 0, buffer: [0u8; 4] };
        assert(hasher@.pending == Seq::<u8>::empty());
        hasher
    }

    /// The 32-bit hash of the bytes written so far.
    pub fn finish_u32(&self) -> (hash: u32)
        ensures
            hash == murmur32_finish(self@),
    {
        let fill = (self.length % 4) as usize;
        let h1 = tail32(self.state, &self.buffer, 0, fill);
        proof {
            let pending = self@.pending;
            assert(pending.len() == fill);
            assert(le_partial32(pending, 0, fill as int) == le_partial32(
                self.buffer@,
                0,
                fill as int,
            ));
        }
        fmix32(h1 ^ self.length)
    }

    /// Feeds `bytes` to the hasher: whole blocks are folded in as they fill,
    /// the rest waits.
    fn absorb(&mut self, bytes: &[u8])
        ensures
            final(self)@ == murmur32_absorb(old(self)@, bytes@),
    {
        let ghost before = self@;
        let ghost all = before.pending + bytes@;
        let ghost waiting = before.pending.len() as int;
        let len = bytes.len();
        let mut h1 = self.state;
        let mut buffer = self.buffer;
        let mut fill: usize = (self.length % 4) as usize;
        let mut i: usize = 0;
        let ghost mut done: nat = 0;
        while i < len
            invariant
                i <= len,
                len == bytes.len(),
                fill < 4,
                0 <= waiting < 4,
                all.len() == waiting + len,
                forall|k: int| 0 <= k < len ==> all[waiting + k] == bytes@[k],
                4 * done + fill == waiting + i,
                h1 == blocks32_spec(before.h, all, done),
                forall|k: int| 0 <= k < fill ==> buffer@[k] == all[4 * done + k],
            decreases len - i,
        {
            if fill == 0 && len - i >= 4 {
                let k1 = fetch32(bytes, i);
                assert(k1 == le32(all, (4 * done) as int));
                h1 = round32(h1, k1);
                i += 4;
                proof {
                    done = done + 1;
                }
            } else {
                buffer[fill] = bytes[i];
                fill += 1;
                i += 1;
                if fill == 4 {
                    let k1 = fetch32(&buffer, 0);
                    assert(k1 == le32(all, (4 * done) as int));
                    h1 = round32(h1, k1);
                    fill = 0;
                    proof {
                        done = done + 1;
                    }
                }
            }
        }
        let length = self.length.wrapping_add(length_word(len));
        proof {
            lemma_length_word_add(before.count, len as nat);
            assert(done == all.len() / 4);
            assert(length % 4 == fill);
            assert(buffer@.take(fill as int) =~= all.skip((4 * done) as int));
        }
        self.state = h1;
        self.length = length;
        self.buffer = buffer;
    }
}

/// Adding a length word to a count, wrapping, gives the length word of the sum.
proof fn lemma_length_word_add(count: u32, len: nat)
    ensures
        u32_specs::wrapping_add(count, len32(len)) == len32((count + len) as nat),
        len32((count + len) as nat) % 4 == (count % 4 + len) % 4,
{
    let m = 0x1_0000_0000int;
    let x = count as int;
    let y = len as int;
    assert((x + (y % m)) % m == (x + y) % m) by {
        vstd::arithmetic::div_mod::lemma_add_mod_noop(x, y, m);
        vstd::arithmetic::div_mod::lemma_add_mod_noop(x, y % m, m);
        vstd::arithmetic::div_mod::lemma_mod_twice(y, m);
    }
    assert(((x + y) % m) % 4 == (x + y) % 4) by {
        vstd::arithmetic::div_mod::lemma_mod_mod(x + y, 4, 0x4000_0000);
    }
    assert((x + y) % 4 == (x % 4 + y) % 4) by {
        vstd::arithmetic::div_mod::lemma_add_mod_noop(x, y, 4);
        vstd::arithmetic::div_mod::lemma_add_mod_noop(x % 4, y, 4);
        vstd::arithmetic::div_mod::lemma_mod_twice(x, 4);
    }
}

impl Default for MurmurHasher32 {
    fn default() -> (hasher: Self)
        ensures
            hasher@ == murmur32_init(0),
    {
        Self::new(0)
    }
}

impl std::hash::Hasher for MurmurHasher32 {
    /// The hash of the bytes written so far, widened to 64 bits.
    fn finish(&self) -> (digest: u64)
        ensures
            digest == murmur32_finish(self@),
    {
        self.finish_u32() as u64
    }

    /// Feeds `bytes` to the hasher.
    fn write(&mut self, bytes: &[u8])
        ensures
            final(self)@ == murmur32_absorb(old(self)@, bytes@),
    {
        self.absorb(bytes);
    }
}

impl crate::hasher::StreamHasher for MurmurHasher32 {
    type State = Murmur32State;

    open spec fn state(&self) -> Murmur32State {
        self@
    }

    open spec fn start() -> Murmur32State {
        murmur32_init(0)
    }

    open spec fn absorb(state: Murmur32State, bytes: Seq<u8>) -> Murmur32State {
        murmur32_absorb(state, bytes)
    }

    open spec fn digest(state: Murmur32State) -> u64 {
        murmur32_finish(state) as u64
    }

    proof fn absorb_concat(state: Murmur32State, a: Seq<u8>, b: Seq<u8>) {
        lemma_murmur32_absorb_concat(state, a, b);
    }

    fn fresh() -> (hasher: Self) {
        Self::new(0)
    }

    fn write(&mut self, bytes: &[u8]) {
        self.absorb(bytes);
    }

    fn finish(&self) -> (digest: u64) {
        self.finish_u32() as u64
    }
}

} // verus!
