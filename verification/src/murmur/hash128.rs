//! MurmurHash3 with 128 bits of output, on four 32-bit lanes.
//!
//! The input is read as blocks of sixteen bytes, one little-endian word for
//! each lane. A lane scrambles its word with its own pair of constants, folds
//! it in and then takes in its neighbour: the first lane the second, the
//! second the third, the third the fourth, each as it was before the block,
//! and the fourth the first as it has just become. The zero to fifteen bytes
//! left over reach only the lanes whose word they touch.

use crate::bits::{fetch32, fetch_partial32, le32, le_partial32, rotate_left32, rotl32};
use crate::murmur::hash32::{fmix32, fmix32_spec, len32, length_word};
use vstd::prelude::*;
use vstd::wrapping::u32_specs;

verus! {

/// Scramble constant shared by the first and the fourth lane.
pub const C1_128: u32 = 0x239b961b;

/// Scramble constant shared by the first and the second lane.
pub const C2_128: u32 = 0xab0e9789;

/// Scramble constant shared by the second and the third lane.
pub const C3_128: u32 = 0x38b34ae5;

/// Scramble constant shared by the third and the fourth lane.
pub const C4_128: u32 = 0xa1e38b93;

/// Constant added to the first lane after every block.
pub const N1_128: u32 = 0x561ccd1b;

/// Constant added to the second lane after every block.
pub const N2_128: u32 = 0x0bcaa747;

/// Constant added to the third lane after every block.
pub const N3_128: u32 = 0x96cd1c35;

/// Constant added to the fourth lane after every block.
pub const N4_128: u32 = 0x32ac3b17;

/// The four lanes of the 128-bit hash.
#[derive(Debug, Copy, Clone)]
pub struct Lanes {
    pub h1: u32,
    pub h2: u32,
    pub h3: u32,
    pub h4: u32,
}

/// A word scrambled for its lane: multiplied by `first`, rotated left by
/// `shift`, multiplied by `second`.
pub open spec fn scramble128_spec(k: u32, first: u32, shift: u32, second: u32) -> u32 {
    u32_specs::wrapping_mul(rotl32(u32_specs::wrapping_mul(k, first), shift), second)
}

/// A lane after a block: the scrambled word `k` is xored in, the lane is
/// rotated left by `shift`, `neighbour` is added, and the sum is multiplied by
/// five and raised by `constant`.
pub open spec fn lane_fold_spec(h: u32, k: u32, shift: u32, neighbour: u32, constant: u32) -> u32 {
    u32_specs::wrapping_add(
        u32_specs::wrapping_mul(u32_specs::wrapping_add(rotl32(h ^ k, shift), neighbour), 5),
        constant,
    )
}

/// The lanes after the block of sixteen bytes at `at` has been folded in.
#[verifier::opaque]
pub open spec fn round128_spec(lanes: Lanes, data: Seq<u8>, at: int) -> Lanes {
    let k1 = scramble128_spec(le32(data, at), C1_128, 15, C2_128);
    let k2 = scramble128_spec(le32(data, at + 4), C2_128, 16, C3_128);
    let k3 = scramble128_spec(le32(data, at + 8), C3_128, 17, C4_128);
    let k4 = scramble128_spec(le32(data, at + 12), C4_128, 18, C1_128);
    let h1 = lane_fold_spec(lanes.h1, k1, 19, lanes.h2, N1_128);
    let h2 = lane_fold_spec(lanes.h2, k2, 17, lanes.h3, N2_128);
    let h3 = lane_fold_spec(lanes.h3, k3, 15, lanes.h4, N3_128);
    let h4 = lane_fold_spec(lanes.h4, k4, 13, h1, N4_128);
    Lanes { h1, h2, h3, h4 }
}

/// The lanes after the first `n` blocks of `data` have been folded in.
pub open spec fn blocks128_spec(lanes: Lanes, data: Seq<u8>, n: nat) -> Lanes
    decreases n,
{
    if n == 0 {
        lanes
    } else {
        round128_spec(blocks128_spec(lanes, data, (n - 1) as nat), data, 16 * (n - 1))
    }
}

/// A lane after the tail: untouched where none of the `count` bytes from `at`
/// on is left for it, else xored with its scrambled partial word.
pub open spec fn lane_tail_spec(
    h: u32,
    data: Seq<u8>,
    at: int,
    count: int,
    first: u32,
    shift: u32,
    second: u32,
) -> u32 {
    if count <= 0 {
        h
    } else {
        h ^ scramble128_spec(le_partial32(data, at, count), first, shift, second)
    }
}

/// The lanes after a tail of `count` bytes, fewer than sixteen, that starts at
/// `at`. The first four bytes belong to the first lane, the next four to the
/// second, and so on.
pub open spec fn tail128_spec(lanes: Lanes, data: Seq<u8>, at: int, count: int) -> Lanes {
    Lanes {
        h1: lane_tail_spec(lanes.h1, data, at, count, C1_128, 15, C2_128),
        h2: lane_tail_spec(lanes.h2, data, at + 4, count - 4, C2_128, 16, C3_128),
        h3: lane_tail_spec(lanes.h3, data, at + 8, count - 8, C3_128, 17, C4_128),
        h4: lane_tail_spec(lanes.h4, data, at + 12, count - 12, C4_128, 18, C1_128),
    }
}

/// Four lanes as one number: the first lane in the lowest 32 bits, the fourth
/// in the highest.
pub open spec fn pack128(lanes: Lanes) -> u128 {
    ((lanes.h4 as u128) << 96) | ((lanes.h3 as u128) << 64) | ((lanes.h2 as u128) << 32) | (
    lanes.h1 as u128)
}

/// The hash, given the lanes after blocks and tail and the length word: the
/// length is xored into every lane, the first lane takes in the other three,
/// each of those takes in the first, and every lane goes through the final
/// avalanche.
pub open spec fn finalize128_spec(lanes: Lanes, length: u32) -> u128 {
    let a1 = lanes.h1 ^ length;
    let a2 = lanes.h2 ^ length;
    let a3 = lanes.h3 ^ length;
    let a4 = lanes.h4 ^ length;
    let b1 = u32_specs::wrapping_add(u32_specs::wrapping_add(u32_specs::wrapping_add(a1, a2), a3), a4);
    let b2 = u32_specs::wrapping_add(a2, b1);
    let b3 = u32_specs::wrapping_add(a3, b1);
    let b4 = u32_specs::wrapping_add(a4, b1);
    pack128(
        Lanes { h1: fmix32_spec(b1), h2: fmix32_spec(b2), h3: fmix32_spec(b3), h4: fmix32_spec(b4) },
    )
}

/// The lanes before any byte: every lane holds the seed.
pub open spec fn seeded_lanes(seed: u32) -> Lanes {
    Lanes { h1: seed, h2: seed, h3: seed, h4: seed }
}

/// MurmurHash3, 128 bits, of `data` under `seed`.
pub open spec fn murmur3_128_spec(data: Seq<u8>, seed: u32) -> u128 {
    let blocks = data.len() / 16;
    let lanes = blocks128_spec(seeded_lanes(seed), data, blocks);
    let tail = tail128_spec(lanes, data, (16 * blocks) as int, data.len() - 16 * blocks);
    finalize128_spec(tail, len32(data.len()))
}

fn scramble128(k: u32, first: u32, shift: u32, second: u32) -> (scrambled: u32)
    requires
        0 < shift < 32,
    ensures
        scrambled == scramble128_spec(k, first, shift, second),
{
    rotate_left32(k.wrapping_mul(first), shift).wrapping_mul(second)
}

fn lane_fold(h: u32, k: u32, shift: u32, neighbour: u32, constant: u32) -> (next: u32)
    requires
        0 < shift < 32,
    ensures
        next == lane_fold_spec(h, k, shift, neighbour, constant),
{
    rotate_left32(h ^ k, shift).wrapping_add(neighbour).wrapping_mul(5).wrapping_add(constant)
}

fn round128(lanes: Lanes, bytes: &[u8], at: usize) -> (next: Lanes)
    requires
        at + 16 <= bytes.len(),
    ensures
        next == round128_spec(lanes, bytes@, at as int),
{
    reveal(round128_spec);
    let k1 = scramble128(fetch32(bytes, at), C1_128, 15, C2_128);
    let k2 = scramble128(fetch32(bytes, at + 4), C2_128, 16, C3_128);
    let k3 = scramble128(fetch32(bytes, at + 8), C3_128, 17, C4_128);
    let k4 = scramble128(fetch32(bytes, at + 12), C4_128, 18, C1_128);
    let h1 = lane_fold(lanes.h1, k1, 19, lanes.h2, N1_128);
    let h2 = lane_fold(lanes.h2, k2, 17, lanes.h3, N2_128);
    let h3 = lane_fold(lanes.h3, k3, 15, lanes.h4, N3_128);
    let h4 = lane_fold(lanes.h4, k4, 13, h1, N4_128);
    Lanes { h1, h2, h3, h4 }
}

fn lane_tail(
    h: u32,
    bytes: &[u8],
    at: usize,
    count: usize,
    first: u32,
    shift: u32,
    second: u32,
) -> (next: u32)
    requires
        0 < shift < 32,
        count <= 4,
        at + count <= bytes.len(),
    ensures
        next == lane_tail_spec(h, bytes@, at as int, count as int, first, shift, second),
{
    if count == 0 {
        h
    } else {
        h ^ scramble128(fetch_partial32(bytes, at, count), first, shift, second)
    }
}

/// How many of `count` tail bytes fall to the lane whose word starts `skip`
/// bytes into the tail.
fn lane_share(count: usize, skip: usize) -> (share: usize)
    ensures
        share <= 4,
        share <= count,
        count <= skip ==> share == 0,
        skip < count < skip + 4 ==> share == count - skip,
        count >= skip + 4 ==> share == 4,
{
    if count <= skip {
        0
    } else if count - skip < 4 {
        count - skip
    } else {
        4
    }
}

fn finalize128(lanes: Lanes, length: u32) -> (hash: u128)
    ensures
        hash == finalize128_spec(lanes, length),
{
    let a1 = lanes.h1 ^ length;
    let a2 = lanes.h2 ^ length;
    let a3 = lanes.h3 ^ length;
    let a4 = lanes.h4 ^ length;
    let b1 = a1.wrapping_add(a2).wrapping_add(a3).wrapping_add(a4);
    let b2 = a2.wrapping_add(b1);
    let b3 = a3.wrapping_add(b1);
    let b4 = a4.wrapping_add(b1);
    let h1 = fmix32(b1);
    let h2 = fmix32(b2);
    let h3 = fmix32(b3);
    let h4 = fmix32(b4);
    ((h4 as u128) << 96) | ((h3 as u128) << 64) | ((h2 as u128) << 32) | (h1 as u128)
}

/// MurmurHash3, 128 bits, of `data` under `seed`. Every byte sequence and
/// every seed is accepted. The low 64 bits can serve as a 64-bit hash.
pub fn murmurhash3_128(data: &[u8], seed: u32) -> (hash: u128)
    ensures
        hash == murmur3_128_spec(data@, seed),
{
    let len = data.len();
    let nblocks = len / 16;
    let mut lanes = Lanes { h1: seed, h2: seed, h3: seed, h4: seed };
    let mut i: usize = 0;
    while i < nblocks
        invariant
            i <= nblocks,
            nblocks == len / 16,
            len == data.len(),
            lanes == blocks128_spec(seeded_lanes(seed), data@, i as nat),
        decreases nblocks - i,
    {
        lanes = round128(lanes, data, i * 16);
        i += 1;
    }
    lanes = MurmurHasher128::process_tail(lanes, data, nblocks * 16, len - nblocks * 16);
    finalize128(lanes, length_word(len))
}

/// What an incremental 128-bit hasher stands for: the lanes after the whole
/// blocks seen so far, the bytes that wait for their block to fill, and the
/// number of bytes seen so far, as its low 32 bits.
pub struct Murmur128State {
    pub lanes: Lanes,
    pub pending: Seq<u8>,
    pub count: u32,
}

/// The state of a hasher under `seed` that has seen no bytes.
pub open spec fn murmur128_init(seed: u32) -> Murmur128State {
    Murmur128State { lanes: seeded_lanes(seed), pending: Seq::empty(), count: 0 }
}

/// The state after `bytes` have been written: the bytes go behind those that
/// were waiting, every whole block of the result is folded in, and what does
/// not fill a block waits in its turn.
pub open spec fn murmur128_absorb(state: Murmur128State, bytes: Seq<u8>) -> Murmur128State {
    let all = state.pending + bytes;
    let blocks = all.len() / 16;
    Murmur128State {
        lanes: blocks128_spec(state.lanes, all, blocks),
        pending: all.skip((16 * blocks) as int),
        count: len32((state.count + bytes.len()) as nat),
    }
}

/// The hash that a hasher in `state` gives: the waiting bytes are its tail.
pub open spec fn murmur128_finish(state: Murmur128State) -> u128 {
    finalize128_spec(
        tail128_spec(state.lanes, state.pending, 0, state.pending.len() as int),
        state.count,
    )
}

/// The low 64 bits of a 128-bit hash.
pub open spec fn low64(hash: u128) -> u64 {
    (hash & 0xffff_ffff_ffff_ffff) as u64
}

/// A block is read from its sixteen bytes: two sequences that hold the same
/// bytes there give the same lanes.
pub proof fn lemma_round128_agrees(lanes: Lanes, a: Seq<u8>, at: int, b: Seq<u8>, bt: int)
    requires
        forall|k: int| 0 <= k < 16 ==> a[at + k] == #[trigger] b[bt + k],
    ensures
        round128_spec(lanes, a, at) == round128_spec(lanes, b, bt),
{
    reveal(round128_spec);
    assert(forall|j: int| 0 <= j < 4 ==> le32(a, at + 4 * j) == #[trigger] le32(b, bt + 4 * j)) by {
        assert forall|j: int| 0 <= j < 4 implies le32(a, at + 4 * j) == #[trigger] le32(
            b,
            bt + 4 * j,
        ) by {
            assert(a[at + 4 * j] == b[bt + (4 * j)]);
            assert(a[at + 4 * j + 1] == b[bt + (4 * j + 1)]);
            assert(a[at + 4 * j + 2] == b[bt + (4 * j + 2)]);
            assert(a[at + 4 * j + 3] == b[bt + (4 * j + 3)]);
        }
    }
    assert(le32(a, at) == le32(b, bt + 4 * 0));
    assert(le32(a, at + 4) == le32(b, bt + 4 * 1));
    assert(le32(a, at + 8) == le32(b, bt + 4 * 2));
    assert(le32(a, at + 12) == le32(b, bt + 4 * 3));
}

/// A block read behind a prefix is the block read without the prefix.
pub proof fn lemma_round128_behind(lanes: Lanes, prefix: Seq<u8>, bytes: Seq<u8>, at: int)
    requires
        0 <= at,
        at + 16 <= bytes.len(),
    ensures
        round128_spec(lanes, prefix + bytes, prefix.len() + at) == round128_spec(lanes, bytes, at),
{
    let all = prefix + bytes;
    assert forall|k: int| 0 <= k < 16 implies all[prefix.len() + at + k] == #[trigger] bytes[at
        + k] by {}
    lemma_round128_agrees(lanes, all, prefix.len() + at, bytes, at);
}

/// A block read out of a window of sixteen bytes is the block read in place.
pub proof fn lemma_round128_window(lanes: Lanes, data: Seq<u8>, at: int)
    requires
        0 <= at,
        at + 16 <= data.len(),
    ensures
        round128_spec(lanes, data.subrange(at, at + 16), 0) == round128_spec(lanes, data, at),
{
    let window = data.subrange(at, at + 16);
    assert forall|k: int| 0 <= k < 16 implies data[at + k] == #[trigger] window[0 + k] by {}
    lemma_round128_agrees(lanes, data, at, window, 0);
}

/// The blocks of a sequence are read from a prefix of it: behind the blocks
/// read, the sequence may be anything.
pub proof fn lemma_blocks128_prefix(lanes: Lanes, a: Seq<u8>, b: Seq<u8>, n: nat)
    requires
        16 * n <= a.len(),
        16 * n <= b.len(),
        forall|k: int| 0 <= k < 16 * n ==> a[k] == b[k],
    ensures
        blocks128_spec(lanes, a, n) == blocks128_spec(lanes, b, n),
    decreases n,
{
    if n > 0 {
        lemma_blocks128_prefix(lanes, a, b, (n - 1) as nat);
        let at = 16 * (n - 1);
        lemma_round128_agrees(blocks128_spec(lanes, a, (n - 1) as nat), a, at, b, at);
    }
}

/// Blocks can be folded in two runs: `n` blocks of `a`, which holds exactly
/// those, and then `m` blocks of `b`.
pub proof fn lemma_blocks128_split(lanes: Lanes, a: Seq<u8>, b: Seq<u8>, n: nat, m: nat)
    requires
        a.len() == 16 * n,
        16 * m <= b.len(),
    ensures
        blocks128_spec(lanes, a + b, n + m) == blocks128_spec(blocks128_spec(lanes, a, n), b, m),
    decreases m,
{
    let all = a + b;
    if m == 0 {
        lemma_blocks128_prefix(lanes, all, a, n);
    } else {
        lemma_blocks128_split(lanes, a, b, n, (m - 1) as nat);
        let at = 16 * (m - 1);
        assert(16 * (n + m - 1) == 16 * n + at);
        lemma_round128_agrees(
            blocks128_spec(lanes, all, (n + m - 1) as nat),
            all,
            16 * n + at,
            b,
            at,
        );
    }
}

/// Concatenation invariance: writing `a` and then `b` leaves the state that
/// writing `a + b` at once leaves, wherever the cut falls.
pub proof fn lemma_murmur128_absorb_concat(state: Murmur128State, a: Seq<u8>, b: Seq<u8>)
    ensures
        murmur128_absorb(murmur128_absorb(state, a), b) == murmur128_absorb(state, a + b),
{
    let first = state.pending + a;
    let n = first.len() / 16;
    let mid = murmur128_absorb(state, a);
    let second = mid.pending + b;
    let m = second.len() / 16;
    let all = state.pending + (a + b);
    assert(all == first.take((16 * n) as int) + second);
    assert(all.len() / 16 == n + m);
    lemma_blocks128_prefix(state.lanes, first, first.take((16 * n) as int), n);
    lemma_blocks128_split(state.lanes, first.take((16 * n) as int), second, n, m);
    assert(all.skip((16 * (n + m)) as int) == second.skip((16 * m) as int));
    crate::murmur::hash32::lemma_len32_add(state.count, a.len(), b.len());
}

/// The tail is read from its bytes: two sequences that hold the same `count`
/// bytes there give the same lanes.
pub proof fn lemma_tail128_agrees(
    lanes: Lanes,
    a: Seq<u8>,
    at: int,
    b: Seq<u8>,
    bt: int,
    count: int,
)
    requires
        forall|k: int| 0 <= k < count ==> a[at + k] == #[trigger] b[bt + k],
    ensures
        tail128_spec(lanes, a, at, count) == tail128_spec(lanes, b, bt, count),
{
    assert forall|j: int| 0 <= j < 4 implies le_partial32(a, at + 4 * j, count - 4 * j)
        == #[trigger] le_partial32(b, bt + 4 * j, count - 4 * j) by {
        if 4 * j < count {
            assert(a[at + 4 * j] == b[bt + (4 * j)]);
        }
        if 4 * j + 1 < count {
            assert(a[at + 4 * j + 1] == b[bt + (4 * j + 1)]);
        }
        if 4 * j + 2 < count {
            assert(a[at + 4 * j + 2] == b[bt + (4 * j + 2)]);
        }
        if 4 * j + 3 < count {
            assert(a[at + 4 * j + 3] == b[bt + (4 * j + 3)]);
        }
    }
    assert(le_partial32(a, at, count) == le_partial32(b, bt + 4 * 0, count - 4 * 0));
    assert(le_partial32(a, at + 4, count - 4) == le_partial32(b, bt + 4 * 1, count - 4 * 1));
    assert(le_partial32(a, at + 8, count - 8) == le_partial32(b, bt + 4 * 2, count - 4 * 2));
    assert(le_partial32(a, at + 12, count - 12) == le_partial32(b, bt + 4 * 3, count - 4 * 3));
}

/// A hasher that was fed `data`, in whatever pieces, gives the hash of `data`.
pub proof fn lemma_murmur128_stream_hashes_input(seed: u32, data: Seq<u8>)
    ensures
        murmur128_finish(murmur128_absorb(murmur128_init(seed), data)) == murmur3_128_spec(
            data,
            seed,
        ),
{
    let all = Seq::<u8>::empty() + data;
    assert(all == data);
    let blocks = data.len() / 16;
    let rest = data.skip((16 * blocks) as int);
    let lanes = blocks128_spec(seeded_lanes(seed), data, blocks);
    lemma_tail128_agrees(lanes, rest, 0, data, (16 * blocks) as int, rest.len() as int);
}

/// The steps of a lane lose nothing: multiplying by five or by a scramble
/// constant, rotating, xoring with a fixed word and adding a fixed word can
/// each be undone.
proof fn lemma_lane_steps_are_injective(a: u32, b: u32, k: u32)
    ensures
        u32_specs::wrapping_mul(a, 5) == u32_specs::wrapping_mul(b, 5) ==> a == b,
        u32_specs::wrapping_mul(a, C1_128) == u32_specs::wrapping_mul(b, C1_128) ==> a == b,
        u32_specs::wrapping_mul(a, C2_128) == u32_specs::wrapping_mul(b, C2_128) ==> a == b,
        u32_specs::wrapping_mul(a, C3_128) == u32_specs::wrapping_mul(b, C3_128) ==> a == b,
        u32_specs::wrapping_mul(a, C4_128) == u32_specs::wrapping_mul(b, C4_128) ==> a == b,
        forall|shift: u32| 0 < shift < 32 && rotl32(a, shift) == rotl32(b, shift) ==> a == b,
        a ^ k == b ^ k ==> a == b,
        k ^ a == k ^ b ==> a == b,
        u32_specs::wrapping_add(a, k) == u32_specs::wrapping_add(b, k) ==> a == b,
        u32_specs::wrapping_add(k, a) == u32_specs::wrapping_add(k, b) ==> a == b,
{
    assert(u32_specs::wrapping_mul(a, 5) == u32_specs::wrapping_mul(b, 5) ==> a == b)
        by (bit_vector);
    assert(u32_specs::wrapping_mul(a, C1_128) == u32_specs::wrapping_mul(b, C1_128) ==> a == b)
        by (bit_vector);
    assert(u32_specs::wrapping_mul(a, C2_128) == u32_specs::wrapping_mul(b, C2_128) ==> a == b)
        by (bit_vector);
    assert(u32_specs::wrapping_mul(a, C3_128) == u32_specs::wrapping_mul(b, C3_128) ==> a == b)
        by (bit_vector);
    assert(u32_specs::wrapping_mul(a, C4_128) == u32_specs::wrapping_mul(b, C4_128) ==> a == b)
        by (bit_vector);
    assert forall|shift: u32| 0 < shift < 32 && rotl32(a, shift) == rotl32(b, shift) implies a
        == b by {
        assert(0 < shift < 32 && rotl32(a, shift) == rotl32(b, shift) ==> a == b) by (bit_vector);
    }
    assert(a ^ k == b ^ k ==> a == b) by (bit_vector);
    assert(k ^ a == k ^ b ==> a == b) by (bit_vector);
}

/// A lane's fold loses nothing of the lane, where word and neighbour are the
/// same.
proof fn lemma_lane_fold_is_injective(
    a: u32,
    b: u32,
    k: u32,
    shift: u32,
    neighbour: u32,
    constant: u32,
)
    requires
        0 < shift < 32,
        lane_fold_spec(a, k, shift, neighbour, constant) == lane_fold_spec(
            b,
            k,
            shift,
            neighbour,
            constant,
        ),
    ensures
        a == b,
{
    let a1 = rotl32(a ^ k, shift);
    let b1 = rotl32(b ^ k, shift);
    let a2 = u32_specs::wrapping_add(a1, neighbour);
    let b2 = u32_specs::wrapping_add(b1, neighbour);
    let a3 = u32_specs::wrapping_mul(a2, 5);
    let b3 = u32_specs::wrapping_mul(b2, 5);
    lemma_lane_steps_are_injective(a3, b3, constant);
    lemma_lane_steps_are_injective(a2, b2, 0);
    lemma_lane_steps_are_injective(a1, b1, neighbour);
    lemma_lane_steps_are_injective(a ^ k, b ^ k, 0);
    lemma_lane_steps_are_injective(a, b, k);
}

/// A lane's fold loses nothing of the word either, where lane and neighbour
/// are the same.
proof fn lemma_lane_fold_sees_the_word(
    h: u32,
    j: u32,
    k: u32,
    shift: u32,
    neighbour: u32,
    constant: u32,
)
    requires
        0 < shift < 32,
        lane_fold_spec(h, j, shift, neighbour, constant) == lane_fold_spec(
            h,
            k,
            shift,
            neighbour,
            constant,
        ),
    ensures
        j == k,
{
    let a1 = rotl32(h ^ j, shift);
    let b1 = rotl32(h ^ k, shift);
    let a2 = u32_specs::wrapping_add(a1, neighbour);
    let b2 = u32_specs::wrapping_add(b1, neighbour);
    let a3 = u32_specs::wrapping_mul(a2, 5);
    let b3 = u32_specs::wrapping_mul(b2, 5);
    lemma_lane_steps_are_injective(a3, b3, constant);
    lemma_lane_steps_are_injective(a2, b2, 0);
    lemma_lane_steps_are_injective(a1, b1, neighbour);
    lemma_lane_steps_are_injective(h ^ j, h ^ k, 0);
    lemma_lane_steps_are_injective(j, k, h);
}

/// The scramble of every lane loses nothing: two words stay two words.
proof fn lemma_scramble128_is_injective(j: u32, k: u32)
    ensures
        scramble128_spec(j, C1_128, 15, C2_128) == scramble128_spec(k, C1_128, 15, C2_128) ==> j
            == k,
        scramble128_spec(j, C2_128, 16, C3_128) == scramble128_spec(k, C2_128, 16, C3_128) ==> j
            == k,
        scramble128_spec(j, C3_128, 17, C4_128) == scramble128_spec(k, C3_128, 17, C4_128) ==> j
            == k,
        scramble128_spec(j, C4_128, 18, C1_128) == scramble128_spec(k, C4_128, 18, C1_128) ==> j
            == k,
{
    lemma_lane_steps_are_injective(j, k, 0);
    let j1 = u32_specs::wrapping_mul(j, C1_128);
    let k1 = u32_specs::wrapping_mul(k, C1_128);
    lemma_lane_steps_are_injective(j1, k1, 0);
    lemma_lane_steps_are_injective(rotl32(j1, 15), rotl32(k1, 15), 0);
    let j2 = u32_specs::wrapping_mul(j, C2_128);
    let k2 = u32_specs::wrapping_mul(k, C2_128);
    lemma_lane_steps_are_injective(j2, k2, 0);
    lemma_lane_steps_are_injective(rotl32(j2, 16), rotl32(k2, 16), 0);
    let j3 = u32_specs::wrapping_mul(j, C3_128);
    let k3 = u32_specs::wrapping_mul(k, C3_128);
    lemma_lane_steps_are_injective(j3, k3, 0);
    lemma_lane_steps_are_injective(rotl32(j3, 17), rotl32(k3, 17), 0);
    let j4 = u32_specs::wrapping_mul(j, C4_128);
    let k4 = u32_specs::wrapping_mul(k, C4_128);
    lemma_lane_steps_are_injective(j4, k4, 0);
    lemma_lane_steps_are_injective(rotl32(j4, 18), rotl32(k4, 18), 0);
}

/// Folding a block in loses nothing of the lanes before it: the fourth lane
/// is told from its own result and the first lane's, the third from its own
/// and the fourth, and so on back to the first.
pub proof fn lemma_round128_is_injective(a: Lanes, b: Lanes, data: Seq<u8>, at: int)
    requires
        round128_spec(a, data, at) == round128_spec(b, data, at),
    ensures
        a == b,
{
    reveal(round128_spec);
    let k1 = scramble128_spec(le32(data, at), C1_128, 15, C2_128);
    let k2 = scramble128_spec(le32(data, at + 4), C2_128, 16, C3_128);
    let k3 = scramble128_spec(le32(data, at + 8), C3_128, 17, C4_128);
    let k4 = scramble128_spec(le32(data, at + 12), C4_128, 18, C1_128);
    let first = lane_fold_spec(a.h1, k1, 19, a.h2, N1_128);
    assert(first == lane_fold_spec(b.h1, k1, 19, b.h2, N1_128));
    lemma_lane_fold_is_injective(a.h4, b.h4, k4, 13, first, N4_128);
    lemma_lane_fold_is_injective(a.h3, b.h3, k3, 15, a.h4, N3_128);
    lemma_lane_fold_is_injective(a.h2, b.h2, k2, 17, a.h3, N2_128);
    lemma_lane_fold_is_injective(a.h1, b.h1, k1, 19, a.h2, N1_128);
}

/// Folding any number of blocks in loses nothing of the lanes before them.
pub proof fn lemma_blocks128_is_injective(a: Lanes, b: Lanes, data: Seq<u8>, n: nat)
    requires
        blocks128_spec(a, data, n) == blocks128_spec(b, data, n),
    ensures
        a == b,
    decreases n,
{
    if n > 0 {
        lemma_round128_is_injective(
            blocks128_spec(a, data, (n - 1) as nat),
            blocks128_spec(b, data, (n - 1) as nat),
            data,
            16 * (n - 1),
        );
        lemma_blocks128_is_injective(a, b, data, (n - 1) as nat);
    }
}

/// The tail loses nothing of the lanes before it.
pub proof fn lemma_tail128_is_injective(a: Lanes, b: Lanes, data: Seq<u8>, at: int, count: int)
    requires
        tail128_spec(a, data, at, count) == tail128_spec(b, data, at, count),
    ensures
        a == b,
{
    lemma_lane_steps_are_injective(
        a.h1,
        b.h1,
        scramble128_spec(le_partial32(data, at, count), C1_128, 15, C2_128),
    );
    lemma_lane_steps_are_injective(
        a.h2,
        b.h2,
        scramble128_spec(le_partial32(data, at + 4, count - 4), C2_128, 16, C3_128),
    );
    lemma_lane_steps_are_injective(
        a.h3,
        b.h3,
        scramble128_spec(le_partial32(data, at + 8, count - 8), C3_128, 17, C4_128),
    );
    lemma_lane_steps_are_injective(
        a.h4,
        b.h4,
        scramble128_spec(le_partial32(data, at + 12, count - 12), C4_128, 18, C1_128),
    );
}

/// Four lanes packed into one number can be told apart again.
proof fn lemma_pack128_is_injective(a: Lanes, b: Lanes)
    requires
        pack128(a) == pack128(b),
    ensures
        a == b,
{
    let (a1, a2, a3, a4) = (a.h1, a.h2, a.h3, a.h4);
    let (b1, b2, b3, b4) = (b.h1, b.h2, b.h3, b.h4);
    assert((((a4 as u128) << 96) | ((a3 as u128) << 64) | ((a2 as u128) << 32) | (a1 as u128)) == (((
    b4 as u128) << 96) | ((b3 as u128) << 64) | ((b2 as u128) << 32) | (b1 as u128)) ==> a1 == b1
        && a2 == b2 && a3 == b3 && a4 == b4) by (bit_vector);
}

/// The last steps lose nothing of the lanes before them.
pub proof fn lemma_finalize128_is_injective(a: Lanes, b: Lanes, length: u32)
    requires
        finalize128_spec(a, length) == finalize128_spec(b, length),
    ensures
        a == b,
{
    let a1 = a.h1 ^ length;
    let a2 = a.h2 ^ length;
    let a3 = a.h3 ^ length;
    let a4 = a.h4 ^ length;
    let a5 = u32_specs::wrapping_add(
        u32_specs::wrapping_add(u32_specs::wrapping_add(a1, a2), a3),
        a4,
    );
    let b1 = b.h1 ^ length;
    let b2 = b.h2 ^ length;
    let b3 = b.h3 ^ length;
    let b4 = b.h4 ^ length;
    let b5 = u32_specs::wrapping_add(
        u32_specs::wrapping_add(u32_specs::wrapping_add(b1, b2), b3),
        b4,
    );
    let fa = Lanes {
        h1: fmix32_spec(a5),
        h2: fmix32_spec(u32_specs::wrapping_add(a2, a5)),
        h3: fmix32_spec(u32_specs::wrapping_add(a3, a5)),
        h4: fmix32_spec(u32_specs::wrapping_add(a4, a5)),
    };
    let fb = Lanes {
        h1: fmix32_spec(b5),
        h2: fmix32_spec(u32_specs::wrapping_add(b2, b5)),
        h3: fmix32_spec(u32_specs::wrapping_add(b3, b5)),
        h4: fmix32_spec(u32_specs::wrapping_add(b4, b5)),
    };
    lemma_pack128_is_injective(fa, fb);
    crate::murmur::hash32::lemma_fmix32_is_injective(a5, b5);
    crate::murmur::hash32::lemma_fmix32_is_injective(
        u32_specs::wrapping_add(a2, a5),
        u32_specs::wrapping_add(b2, b5),
    );
    crate::murmur::hash32::lemma_fmix32_is_injective(
        u32_specs::wrapping_add(a3, a5),
        u32_specs::wrapping_add(b3, b5),
    );
    crate::murmur::hash32::lemma_fmix32_is_injective(
        u32_specs::wrapping_add(a4, a5),
        u32_specs::wrapping_add(b4, b5),
    );
    assert(a2 == b2 && a3 == b3 && a4 == b4);
    assert(a1 == b1);
    lemma_lane_steps_are_injective(a.h1, b.h1, length);
    lemma_lane_steps_are_injective(a.h2, b.h2, length);
    lemma_lane_steps_are_injective(a.h3, b.h3, length);
    lemma_lane_steps_are_injective(a.h4, b.h4, length);
}

/// Seed sensitivity: for every input, the empty one too, two different seeds
/// give two different 128-bit hashes.
pub proof fn lemma_murmur128_seeds_give_different_hashes(data: Seq<u8>, seed1: u32, seed2: u32)
    requires
        seed1 != seed2,
    ensures
        murmur3_128_spec(data, seed1) != murmur3_128_spec(data, seed2),
{
    let blocks = data.len() / 16;
    let at = (16 * blocks) as int;
    let count = data.len() - 16 * blocks;
    let l1 = blocks128_spec(seeded_lanes(seed1), data, blocks);
    let l2 = blocks128_spec(seeded_lanes(seed2), data, blocks);
    let t1 = tail128_spec(l1, data, at, count);
    let t2 = tail128_spec(l2, data, at, count);
    if murmur3_128_spec(data, seed1) == murmur3_128_spec(data, seed2) {
        lemma_finalize128_is_injective(t1, t2, len32(data.len()));
        lemma_tail128_is_injective(l1, l2, data, at, count);
        lemma_blocks128_is_injective(seeded_lanes(seed1), seeded_lanes(seed2), data, blocks);
    }
}

/// Folding two blocks into the same lanes leaves the same lanes only where
/// the blocks hold the same four words.
pub proof fn lemma_round128_sees_the_block(lanes: Lanes, a: Seq<u8>, b: Seq<u8>, at: int)
    requires
        round128_spec(lanes, a, at) == round128_spec(lanes, b, at),
    ensures
        le32(a, at) == le32(b, at),
        le32(a, at + 4) == le32(b, at + 4),
        le32(a, at + 8) == le32(b, at + 8),
        le32(a, at + 12) == le32(b, at + 12),
{
    reveal(round128_spec);
    let a1 = scramble128_spec(le32(a, at), C1_128, 15, C2_128);
    let a2 = scramble128_spec(le32(a, at + 4), C2_128, 16, C3_128);
    let a3 = scramble128_spec(le32(a, at + 8), C3_128, 17, C4_128);
    let a4 = scramble128_spec(le32(a, at + 12), C4_128, 18, C1_128);
    let b1 = scramble128_spec(le32(b, at), C1_128, 15, C2_128);
    let b2 = scramble128_spec(le32(b, at + 4), C2_128, 16, C3_128);
    let b3 = scramble128_spec(le32(b, at + 8), C3_128, 17, C4_128);
    let b4 = scramble128_spec(le32(b, at + 12), C4_128, 18, C1_128);
    let first = lane_fold_spec(lanes.h1, a1, 19, lanes.h2, N1_128);
    lemma_lane_fold_sees_the_word(lanes.h1, a1, b1, 19, lanes.h2, N1_128);
    lemma_lane_fold_sees_the_word(lanes.h2, a2, b2, 17, lanes.h3, N2_128);
    lemma_lane_fold_sees_the_word(lanes.h3, a3, b3, 15, lanes.h4, N3_128);
    lemma_lane_fold_sees_the_word(lanes.h4, a4, b4, 13, first, N4_128);
    lemma_scramble128_is_injective(le32(a, at), le32(b, at));
    lemma_scramble128_is_injective(le32(a, at + 4), le32(b, at + 4));
    lemma_scramble128_is_injective(le32(a, at + 8), le32(b, at + 8));
    lemma_scramble128_is_injective(le32(a, at + 12), le32(b, at + 12));
}

/// The tail leaves the same lanes only where it holds the same bytes: the
/// byte `k` places in, for one.
pub proof fn lemma_tail128_sees_the_bytes(
    lanes: Lanes,
    a: Seq<u8>,
    b: Seq<u8>,
    at: int,
    count: int,
    k: int,
)
    requires
        0 <= k < count < 16,
        tail128_spec(lanes, a, at, count) == tail128_spec(lanes, b, at, count),
    ensures
        a[at + k] == b[at + k],
{
    let lane = k / 4;
    let from = at + 4 * lane;
    let left = count - 4 * lane;
    let wa = le_partial32(a, from, left);
    let wb = le_partial32(b, from, left);
    lemma_scramble128_is_injective(wa, wb);
    if lane == 0 {
        lemma_lane_steps_are_injective(
            scramble128_spec(wa, C1_128, 15, C2_128),
            scramble128_spec(wb, C1_128, 15, C2_128),
            lanes.h1,
        );
    } else if lane == 1 {
        lemma_lane_steps_are_injective(
            scramble128_spec(wa, C2_128, 16, C3_128),
            scramble128_spec(wb, C2_128, 16, C3_128),
            lanes.h2,
        );
    } else if lane == 2 {
        lemma_lane_steps_are_injective(
            scramble128_spec(wa, C3_128, 17, C4_128),
            scramble128_spec(wb, C3_128, 17, C4_128),
            lanes.h3,
        );
    } else {
        lemma_lane_steps_are_injective(
            scramble128_spec(wa, C4_128, 18, C1_128),
            scramble128_spec(wb, C4_128, 18, C1_128),
            lanes.h4,
        );
    }
    assert(wa == wb);
    crate::murmur::hash32::lemma_le_partial32_is_injective(a, from, b, from, left, k - 4 * lane);
}

/// Two lane sets that differ after `from` blocks still differ after `upto`,
/// where the blocks in between are the same in both inputs.
proof fn lemma_blocks128_stay_apart(
    start_a: Lanes,
    a: Seq<u8>,
    start_b: Lanes,
    b: Seq<u8>,
    from: nat,
    upto: nat,
)
    requires
        from <= upto,
        blocks128_spec(start_a, a, from) != blocks128_spec(start_b, b, from),
        forall|k: int| 16 * from <= k < 16 * upto ==> a[k] == b[k],
    ensures
        blocks128_spec(start_a, a, upto) != blocks128_spec(start_b, b, upto),
    decreases upto,
{
    if upto > from {
        lemma_blocks128_stay_apart(start_a, a, start_b, b, from, (upto - 1) as nat);
        let at = 16 * (upto - 1);
        let la = blocks128_spec(start_a, a, (upto - 1) as nat);
        let lb = blocks128_spec(start_b, b, (upto - 1) as nat);
        assert forall|k: int| 0 <= k < 16 implies b[at + k] == #[trigger] a[at + k] by {}
        lemma_round128_agrees(lb, b, at, a, at);
        if round128_spec(la, a, at) == round128_spec(lb, a, at) {
            lemma_round128_is_injective(la, lb, a, at);
        }
    }
}

/// Two inputs that differ in one byte and in nothing else have two different
/// hashes under every seed: no change to a single byte, so to a single bit,
/// goes unseen.
pub proof fn lemma_murmur128_sees_one_changed_byte(seed: u32, a: Seq<u8>, b: Seq<u8>, at: int)
    requires
        a.len() == b.len(),
        0 <= at < a.len(),
        a[at] != b[at],
        forall|i: int| 0 <= i < a.len() && i != at ==> a[i] == b[i],
    ensures
        murmur3_128_spec(a, seed) != murmur3_128_spec(b, seed),
{
    let blocks = a.len() / 16;
    let end = (16 * blocks) as int;
    let count = a.len() - 16 * blocks;
    let start = seeded_lanes(seed);
    let la = blocks128_spec(start, a, blocks);
    let lb = blocks128_spec(start, b, blocks);
    let ta = tail128_spec(la, a, end, count);
    let tb = tail128_spec(lb, b, end, count);
    if at < end {
        let block = (at / 16) as nat;
        let from = (16 * block) as int;
        lemma_blocks128_prefix(start, a, b, block);
        let lanes = blocks128_spec(start, a, block);
        if round128_spec(lanes, a, from) == round128_spec(lanes, b, from) {
            lemma_round128_sees_the_block(lanes, a, b, from);
            let word = (at - from) / 4;
            let within = (at - from) % 4;
            crate::murmur::hash32::lemma_le_partial32_is_injective(
                a,
                from + 4 * word,
                b,
                from + 4 * word,
                4,
                within,
            );
        }
        lemma_blocks128_stay_apart(start, a, start, b, block + 1, blocks);
        assert(la != lb);
        lemma_tail128_agrees(lb, b, end, a, end, count as int);
        if ta == tb {
            lemma_tail128_is_injective(la, lb, a, end, count as int);
        }
    } else {
        lemma_blocks128_prefix(start, a, b, blocks);
        assert(la == lb);
        if ta == tb {
            lemma_tail128_sees_the_bytes(la, a, b, end, count as int, at - end);
        }
    }
    assert(ta != tb);
    if murmur3_128_spec(a, seed) == murmur3_128_spec(b, seed) {
        lemma_finalize128_is_injective(ta, tb, len32(a.len()));
    }
}

/// Incremental MurmurHash3, 128 bits. Bytes that do not fill a block yet are
/// kept until they do, so the hash depends on the bytes written and not on how
/// they were cut into writes.
#[derive(Debug, Copy, Clone)]
pub struct MurmurHasher128 {
    h1: u32,
    h2: u32,
    h3: u32,
    h4: u32,
    length: u32,
    buffer: [u8; 16],
}

impl View for MurmurHasher128 {
    type V = Murmur128State;

    closed spec fn view(&self) -> Murmur128State {
        Murmur128State {
            lanes: Lanes { h1: self.h1, h2: self.h2, h3: self.h3, h4: self.h4 },
            pending: self.buffer@.take((self.length % 16) as int),
            count: self.length,
        }
    }
}

impl MurmurHasher128 {
    /// A hasher under `seed` that has seen no bytes.
    pub fn new(seed: u32) -> (hasher: Self)
        ensures
            hasher@ == murmur128_init(seed),
    {
        let hasher = Self { h1: seed, h2: seed, h3: seed, h4: seed, length: 0, buffer: [0u8; 16] };
        assert(hasher@.pending == Seq::<u8>::empty());
        hasher
    }

    /// Folds the `count` bytes from `at` on, fewer than sixteen, into the lanes
    /// that they reach.
    pub fn process_tail(lanes: Lanes, bytes: &[u8], at: usize, count: usize) -> (next: Lanes)
        requires
            count < 16,
            at + count <= bytes.len(),
        ensures
            next == tail128_spec(lanes, bytes@, at as int, count as int),
    {
        let n1 = lane_share(count, 0);
        let n2 = lane_share(count, 4);
        let n3 = lane_share(count, 8);
        let n4 = lane_share(count, 12);
        let h1 = lane_tail(lanes.h1, bytes, at, n1, C1_128, 15, C2_128);
        let h2 = lane_tail(lanes.h2, bytes, if n2 == 0 { at } else { at + 4 }, n2, C2_128, 16, C3_128);
        let h3 = lane_tail(lanes.h3, bytes, if n3 == 0 { at } else { at + 8 }, n3, C3_128, 17, C4_128);
        let h4 = lane_tail(lanes.h4, bytes, if n4 == 0 { at } else { at + 12 }, n4, C4_128, 18, C1_128);
        Lanes { h1, h2, h3, h4 }
    }

    /// The 128-bit hash of the bytes written so far.
    pub fn finish_u128(&self) -> (hash: u128)
        ensures
            hash == murmur128_finish(self@),
    {
        let fill = (self.length % 16) as usize;
        let lanes = Lanes { h1: self.h1, h2: self.h2, h3: self.h3, h4: self.h4 };
        let tail = Self::process_tail(lanes, &self.buffer, 0, fill);
        proof {
            lemma_tail128_agrees(lanes, self@.pending, 0, self.buffer@, 0, fill as int);
        }
        finalize128(tail, self.length)
    }

    /// Feeds `bytes` to the hasher: whole blocks are folded in as they fill,
    /// the rest waits.
    pub fn write(&mut self, bytes: &[u8])
        ensures
            final(self)@ == murmur128_absorb(old(self)@, bytes@),
    {
        let ghost before = self@;
        let ghost all = before.pending + bytes@;
        let ghost waiting = before.pending.len() as int;
        let len = bytes.len();
        let mut lanes = Lanes { h1: self.h1, h2: self.h2, h3: self.h3, h4: self.h4 };
        let mut buffer = self.buffer;
        let mut fill: usize = (self.length % 16) as usize;
        let mut i: usize = 0;
        let ghost mut done: nat = 0;
        let ghost mut base: int = 0;
        assert(buffer@.take(fill as int) == all.subrange(0, fill as int));
        while i < len
            invariant
                i <= len,
                len == bytes.len(),
                fill < 16,
                0 <= waiting < 16,
                waiting == before.pending.len(),
                all == before.pending + bytes@,
                base == 16 * done,
                base + fill == waiting + i,
                lanes == blocks128_spec(before.lanes, all, done),
                buffer@.take(fill as int) == all.subrange(base, base + fill),
            decreases len - i,
        {
            if fill == 0 && len - i >= 16 {
                proof {
                    lemma_round128_behind(lanes, before.pending, bytes@, i as int);
                }
                lanes = round128(lanes, bytes, i);
                i += 16;
                proof {
                    done = done + 1;
                    base = base + 16;
                    assert(buffer@.take(0) == all.subrange(base, base));
                }
            } else {
                let ghost held = buffer@.take(fill as int);
                buffer[fill] = bytes[i];
                proof {
                    assert(all[base + fill] == bytes@[i as int]);
                    assert(buffer@.take(fill + 1) == held.push(bytes@[i as int]));
                    assert(all.subrange(base, base + fill + 1) == all.subrange(
                        base,
                        base + fill,
                    ).push(all[base + fill]));
                }
                fill += 1;
                i += 1;
                if fill == 16 {
                    proof {
                        assert(buffer@.take(16) == buffer@);
                        lemma_round128_window(lanes, all, base);
                    }
                    lanes = round128(lanes, &buffer, 0);
                    fill = 0;
                    proof {
                        done = done + 1;
                        base = base + 16;
                        assert(buffer@.take(0) == all.subrange(base, base));
                    }
                }
            }
        }
        let length = self.length.wrapping_add(length_word(len));
        proof {
            lemma_length_word_add16(before.count, len as nat);
            assert(done == all.len() / 16);
            assert(length % 16 == fill);
            assert(all.subrange(base, base + fill) == all.skip((16 * done) as int));
        }
        self.h1 = lanes.h1;
        self.h2 = lanes.h2;
        self.h3 = lanes.h3;
        self.h4 = lanes.h4;
        self.length = length;
        self.buffer = buffer;
    }
}

/// Adding a length word to a count, wrapping, gives the length word of the sum.
proof fn lemma_length_word_add16(count: u32, len: nat)
    ensures
        u32_specs::wrapping_add(count, len32(len)) == len32((count + len) as nat),
        len32((count + len) as nat) % 16 == (count % 16 + len) % 16,
{
    let m = 0x1_0000_0000int;
    let x = count as int;
    let y = len as int;
    assert((x + (y % m)) % m == (x + y) % m) by {
        vstd::arithmetic::div_mod::lemma_add_mod_noop(x, y, m);
        vstd::arithmetic::div_mod::lemma_add_mod_noop(x, y % m, m);
        vstd::arithmetic::div_mod::lemma_mod_twice(y, m);
    }
    assert(((x + y) % m) % 16 == (x + y) % 16) by {
        vstd::arithmetic::div_mod::lemma_mod_mod(x + y, 16, 0x1000_0000);
    }
    assert((x + y) % 16 == (x % 16 + y) % 16) by {
        vstd::arithmetic::div_mod::lemma_add_mod_noop(x, y, 16);
        vstd::arithmetic::div_mod::lemma_add_mod_noop(x % 16, y, 16);
        vstd::arithmetic::div_mod::lemma_mod_twice(x, 16);
    }
}

impl Default for MurmurHasher128 {
    fn default() -> (hasher: Self)
        ensures
            hasher@ == murmur128_init(0),
    {
        Self::new(0)
    }
}

/// The low 64 bits of a 128-bit hash.
fn low_half(hash: u128) -> (low: u64)
    ensures
        low == low64(hash),
{
    let masked = hash & 0xffff_ffff_ffff_ffff;
    assert(hash & 0xffff_ffff_ffff_ffff <= 0xffff_ffff_ffff_ffff) by (bit_vector);
    masked as u64
}

impl std::hash::Hasher for MurmurHasher128 {
    /// The low 64 bits of the hash of the bytes written so far.
    fn finish(&self) -> (digest: u64)
        ensures
            digest == low64(murmur128_finish(self@)),
    {
        low_half(self.finish_u128())
    }

    /// Feeds `bytes` to the hasher.
    fn write(&mut self, bytes: &[u8])
        ensures
            final(self)@ == murmur128_absorb(old(self)@, bytes@),
    {
        MurmurHasher128::write(self, bytes);
    }
}

impl crate::hasher::StreamHasher for MurmurHasher128 {
    type State = Murmur128State;

    open spec fn state(&self) -> Murmur128State {
        self@
    }

    open spec fn start() -> Murmur128State {
        murmur128_init(0)
    }

    open spec fn absorb(state: Murmur128State, bytes: Seq<u8>) -> Murmur128State {
        murmur128_absorb(state, bytes)
    }

    open spec fn digest(state: Murmur128State) -> u64 {
        low64(murmur128_finish(state))
    }

    proof fn absorb_concat(state: Murmur128State, a: Seq<u8>, b: Seq<u8>) {
        lemma_murmur128_absorb_concat(state, a, b);
    }

    fn fresh() -> (hasher: Self) {
        Self::new(0)
    }

    fn write(&mut self, bytes: &[u8]) {
        MurmurHasher128::write(self, bytes);
    }

    fn finish(&self) -> (digest: u64) {
        low_half(self.finish_u128())
    }
}

} // verus!
