//! FNV-1 and FNV-1a, 32 and 64 bits wide.
//!
//! Both walk the input one byte at a time. FNV-1 multiplies the state by the
//! prime and then xors the byte in; FNV-1a xors first and multiplies after.
//! All arithmetic wraps at the width of the state.

use vstd::prelude::*;
use vstd::wrapping::{u32_specs, u64_specs};

verus! {

/// Offset basis of the 32-bit variants: the hash of the empty input.
pub const FNV_32_OFFSET: u32 = 0x811c9dc5;

/// Prime of the 32-bit variants.
pub const FNV_32_PRIME: u32 = 0x01000193;

/// Offset basis of the 64-bit variants: the hash of the empty input.
pub const FNV_64_OFFSET: u64 = 0xcbf29ce484222325;

/// Prime of the 64-bit variants.
pub const FNV_64_PRIME: u64 = 0x00000100000001b3;

/// One byte folded into a 32-bit state; `xor_first` tells FNV-1a from FNV-1.
pub open spec fn fnv_step_32(xor_first: bool, state: u32, byte: u8) -> u32 {
    if xor_first {
        u32_specs::wrapping_mul(state ^ (byte as u32), FNV_32_PRIME)
    } else {
        u32_specs::wrapping_mul(state, FNV_32_PRIME) ^ (byte as u32)
    }
}

/// One byte folded into a 64-bit state; `xor_first` tells FNV-1a from FNV-1.
pub open spec fn fnv_step_64(xor_first: bool, state: u64, byte: u8) -> u64 {
    if xor_first {
        u64_specs::wrapping_mul(state ^ (byte as u64), FNV_64_PRIME)
    } else {
        u64_specs::wrapping_mul(state, FNV_64_PRIME) ^ (byte as u64)
    }
}

/// The 32-bit state after `data` has been folded in, byte by byte, in order.
pub open spec fn fnv_fold_32(xor_first: bool, state: u32, data: Seq<u8>) -> u32
    decreases data.len(),
{
    if data.len() == 0 {
        state
    } else {
        fnv_step_32(xor_first, fnv_fold_32(xor_first, state, data.drop_last()), data.last())
    }
}

/// The 64-bit state after `data` has been folded in, byte by byte, in order.
pub open spec fn fnv_fold_64(xor_first: bool, state: u64, data: Seq<u8>) -> u64
    decreases data.len(),
{
    if data.len() == 0 {
        state
    } else {
        fnv_step_64(xor_first, fnv_fold_64(xor_first, state, data.drop_last()), data.last())
    }
}

/// FNV-1, 32 bits, of `data`.
pub open spec fn fnv1_32_spec(data: Seq<u8>) -> u32 {
    fnv_fold_32(false, FNV_32_OFFSET, data)
}

/// FNV-1a, 32 bits, of `data`.
pub open spec fn fnv1a_32_spec(data: Seq<u8>) -> u32 {
    fnv_fold_32(true, FNV_32_OFFSET, data)
}

/// FNV-1, 64 bits, of `data`.
pub open spec fn fnv1_64_spec(data: Seq<u8>) -> u64 {
    fnv_fold_64(false, FNV_64_OFFSET, data)
}

/// FNV-1a, 64 bits, of `data`.
pub open spec fn fnv1a_64_spec(data: Seq<u8>) -> u64 {
    fnv_fold_64(true, FNV_64_OFFSET, data)
}

/// Folding `a` and then `b` is folding `a + b`: the 32-bit state does not
/// remember where one write ended and the next began.
pub proof fn lemma_fnv_fold_32_concat(xor_first: bool, state: u32, a: Seq<u8>, b: Seq<u8>)
    ensures
        fnv_fold_32(xor_first, fnv_fold_32(xor_first, state, a), b) == fnv_fold_32(
            xor_first,
            state,
            a + b,
        ),
    decreases b.len(),
{
    if b.len() == 0 {
        assert(a + b == a);
    } else {
        lemma_fnv_fold_32_concat(xor_first, state, a, b.drop_last());
        assert((a + b).drop_last() == a + b.drop_last());
        assert((a + b).last() == b.last());
    }
}

/// Folding `a` and then `b` is folding `a + b`: the 64-bit state does not
/// remember where one write ended and the next began.
pub proof fn lemma_fnv_fold_64_concat(xor_first: bool, state: u64, a: Seq<u8>, b: Seq<u8>)
    ensures
        fnv_fold_64(xor_first, fnv_fold_64(xor_first, state, a), b) == fnv_fold_64(
            xor_first,
            state,
            a + b,
        ),
    decreases b.len(),
{
    if b.len() == 0 {
        assert(a + b == a);
    } else {
        lemma_fnv_fold_64_concat(xor_first, state, a, b.drop_last());
        assert((a + b).drop_last() == a + b.drop_last());
        assert((a + b).last() == b.last());
    }
}

/// A step loses nothing: from one state, two bytes lead to two states, and
/// with one byte, two states lead to two states.
proof fn lemma_fnv_step_32_is_injective(xor_first: bool, s: u32, t: u32, a: u8, b: u8)
    ensures
        fnv_step_32(xor_first, s, a) == fnv_step_32(xor_first, s, b) ==> a == b,
        fnv_step_32(xor_first, s, a) == fnv_step_32(xor_first, t, a) ==> s == t,
{
    let x = a as u32;
    let y = b as u32;
    assert(u32_specs::wrapping_mul(s, FNV_32_PRIME) == u32_specs::wrapping_mul(t, FNV_32_PRIME)
        ==> s == t) by (bit_vector);
    assert(u32_specs::wrapping_mul(s ^ x, FNV_32_PRIME) == u32_specs::wrapping_mul(
        s ^ y,
        FNV_32_PRIME,
    ) ==> x == y) by (bit_vector);
    assert(u32_specs::wrapping_mul(s ^ x, FNV_32_PRIME) == u32_specs::wrapping_mul(
        t ^ x,
        FNV_32_PRIME,
    ) ==> s == t) by (bit_vector);
    let m = u32_specs::wrapping_mul(s, FNV_32_PRIME);
    let n = u32_specs::wrapping_mul(t, FNV_32_PRIME);
    assert(m ^ x == m ^ y ==> x == y) by (bit_vector);
    assert(m ^ x == n ^ x ==> m == n) by (bit_vector);
}

/// A step loses nothing: from one state, two bytes lead to two states, and
/// with one byte, two states lead to two states.
proof fn lemma_fnv_step_64_is_injective(xor_first: bool, s: u64, t: u64, a: u8, b: u8)
    ensures
        fnv_step_64(xor_first, s, a) == fnv_step_64(xor_first, s, b) ==> a == b,
        fnv_step_64(xor_first, s, a) == fnv_step_64(xor_first, t, a) ==> s == t,
{
    let x = a as u64;
    let y = b as u64;
    assert(u64_specs::wrapping_mul(s, FNV_64_PRIME) == u64_specs::wrapping_mul(t, FNV_64_PRIME)
        ==> s == t) by (bit_vector);
    assert(u64_specs::wrapping_mul(s ^ x, FNV_64_PRIME) == u64_specs::wrapping_mul(
        s ^ y,
        FNV_64_PRIME,
    ) ==> x == y) by (bit_vector);
    assert(u64_specs::wrapping_mul(s ^ x, FNV_64_PRIME) == u64_specs::wrapping_mul(
        t ^ x,
        FNV_64_PRIME,
    ) ==> s == t) by (bit_vector);
    let m = u64_specs::wrapping_mul(s, FNV_64_PRIME);
    let n = u64_specs::wrapping_mul(t, FNV_64_PRIME);
    assert(m ^ x == m ^ y ==> x == y) by (bit_vector);
    assert(m ^ x == n ^ x ==> m == n) by (bit_vector);
}

/// Two inputs that differ in one byte and in nothing else have two different
/// 32-bit hashes, from the offset basis and from any other state: no change
/// to a single byte, so to a single bit, goes unseen.
pub proof fn lemma_fnv_32_sees_one_changed_byte(
    xor_first: bool,
    state: u32,
    a: Seq<u8>,
    b: Seq<u8>,
    at: int,
)
    requires
        a.len() == b.len(),
        0 <= at < a.len(),
        a[at] != b[at],
        forall|i: int| 0 <= i < a.len() && i != at ==> a[i] == b[i],
    ensures
        fnv_fold_32(xor_first, state, a) != fnv_fold_32(xor_first, state, b),
    decreases a.len(),
{
    let before_a = fnv_fold_32(xor_first, state, a.drop_last());
    let before_b = fnv_fold_32(xor_first, state, b.drop_last());
    if at == a.len() - 1 {
        assert(a.drop_last() =~= b.drop_last());
        lemma_fnv_step_32_is_injective(xor_first, before_a, before_a, a.last(), b.last());
    } else {
        lemma_fnv_32_sees_one_changed_byte(xor_first, state, a.drop_last(), b.drop_last(), at);
        lemma_fnv_step_32_is_injective(xor_first, before_a, before_b, a.last(), a.last());
    }
}

/// Two inputs that differ in one byte and in nothing else have two different
/// 64-bit hashes, from the offset basis and from any other state: no change
/// to a single byte, so to a single bit, goes unseen.
pub proof fn lemma_fnv_64_sees_one_changed_byte(
    xor_first: bool,
    state: u64,
    a: Seq<u8>,
    b: Seq<u8>,
    at: int,
)
    requires
        a.len() == b.len(),
        0 <= at < a.len(),
        a[at] != b[at],
        forall|i: int| 0 <= i < a.len() && i != at ==> a[i] == b[i],
    ensures
        fnv_fold_64(xor_first, state, a) != fnv_fold_64(xor_first, state, b),
    decreases a.len(),
{
    let before_a = fnv_fold_64(xor_first, state, a.drop_last());
    let before_b = fnv_fold_64(xor_first, state, b.drop_last());
    if at == a.len() - 1 {
        assert(a.drop_last() =~= b.drop_last());
        lemma_fnv_step_64_is_injective(xor_first, before_a, before_a, a.last(), b.last());
    } else {
        lemma_fnv_64_sees_one_changed_byte(xor_first, state, a.drop_last(), b.drop_last(), at);
        lemma_fnv_step_64_is_injective(xor_first, before_a, before_b, a.last(), a.last());
    }
}

/// A hasher that was fed `data`, in whatever pieces, gives the hash of `data`.
pub proof fn lemma_fnv_stream_hashes_input(data: Seq<u8>)
    ensures
        <FnvHasher32 as crate::hasher::StreamHasher>::absorb(
            <FnvHasher32 as crate::hasher::StreamHasher>::start(),
            data,
        ) == fnv1_32_spec(data),
        <Fnv1aHasher32 as crate::hasher::StreamHasher>::absorb(
            <Fnv1aHasher32 as crate::hasher::StreamHasher>::start(),
            data,
        ) == fnv1a_32_spec(data),
        <FnvHasher64 as crate::hasher::StreamHasher>::absorb(
            <FnvHasher64 as crate::hasher::StreamHasher>::start(),
            data,
        ) == fnv1_64_spec(data),
        <Fnv1aHasher64 as crate::hasher::StreamHasher>::absorb(
            <Fnv1aHasher64 as crate::hasher::StreamHasher>::start(),
            data,
        ) == fnv1a_64_spec(data),
{
}

/// Folds `bytes` into a 32-bit state.
fn fold_32(xor_first: bool, start: u32, bytes: &[u8]) -> (state: u32)
    ensures
        state == fnv_fold_32(xor_first, start, bytes@),
{
    let mut state = start;
    let mut i: usize = 0;
    while i < bytes.len()
        invariant
            i <= bytes.len(),
            state == fnv_fold_32(xor_first, start, bytes@.take(i as int)),
        decreases bytes.len() - i,
    {
        let byte = bytes[i];
        proof {
            let next = bytes@.take(i + 1);
            assert(next.drop_last() == bytes@.take(i as int));
            assert(next.last() == byte);
        }
        if xor_first {
            state = (state ^ (byte as u32)).wrapping_mul(FNV_32_PRIME);
        } else {
            state = state.wrapping_mul(FNV_32_PRIME) ^ (byte as u32);
        }
        i += 1;
    }
    assert(bytes@.take(i as int) == bytes@);
    state
}

/// Folds `bytes` into a 64-bit state.
fn fold_64(xor_first: bool, start: u64, bytes: &[u8]) -> (state: u64)
    ensures
        state == fnv_fold_64(xor_first, start, bytes@),
{
    let mut state = start;
    let mut i: usize = 0;
    while i < bytes.len()
        invariant
            i <= bytes.len(),
            state == fnv_fold_64(xor_first, start, bytes@.take(i as int)),
        decreases bytes.len() - i,
    {
        let byte = bytes[i];
        proof {
            let next = bytes@.take(i + 1);
            assert(next.drop_last() == bytes@.take(i as int));
            assert(next.last() == byte);
        }
        if xor_first {
            state = (state ^ (byte as u64)).wrapping_mul(FNV_64_PRIME);
        } else {
            state = state.wrapping_mul(FNV_64_PRIME) ^ (byte as u64);
        }
        i += 1;
    }
    assert(bytes@.take(i as int) == bytes@);
    state
}

/// Incremental FNV-1, 32 bits. Its view is the 32-bit state: the hash of
/// the bytes written so far.
#[derive(Debug, Copy, Clone)]
pub struct FnvHasher32 {
    state: u32,
}

impl View for FnvHasher32 {
    type V = u32;

    closed spec fn view(&self) -> u32 {
        self.state
    }
}

impl FnvHasher32 {
    /// A hasher that has seen no bytes.
    pub fn new() -> (hasher: Self)
        ensures
            hasher@ == FNV_32_OFFSET,
    {
        Self { state: FNV_32_OFFSET }
    }

    /// The 32-bit hash of the bytes written so far.
    pub fn finish_raw(&self) -> (hash: u32)
        ensures
            hash == self@,
    {
        self.state
    }
}

impl Default for FnvHasher32 {
    fn default() -> (hasher: Self)
        ensures
            hasher@ == FNV_32_OFFSET,
    {
        Self::new()
    }
}

impl std::hash::Hasher for FnvHasher32 {
    /// The hash of the bytes written so far, widened to 64 bits.
    fn finish(&self) -> (digest: u64)
        ensures
            digest == self@,
    {
        self.state as u64
    }

    /// Folds `bytes` into the state, in order.
    fn write(&mut self, bytes: &[u8])
        ensures
            final(self)@ == fnv_fold_32(false, old(self)@, bytes@),
    {
        self.state = fold_32(false, self.state, bytes);
    }
}

impl crate::hasher::StreamHasher for FnvHasher32 {
    type State = u32;

    open spec fn state(&self) -> u32 {
        self@
    }

    open spec fn start() -> u32 {
        FNV_32_OFFSET
    }

    open spec fn absorb(state: u32, bytes: Seq<u8>) -> u32 {
        fnv_fold_32(false, state, bytes)
    }

    open spec fn digest(state: u32) -> u64 {
        state as u64
    }

    proof fn absorb_concat(state: u32, a: Seq<u8>, b: Seq<u8>) {
        lemma_fnv_fold_32_concat(false, state, a, b);
    }

    fn fresh() -> (hasher: Self) {
        Self::new()
    }

    fn write(&mut self, bytes: &[u8]) {
        self.state = fold_32(false, self.state, bytes);
    }

    fn finish(&self) -> (digest: u64) {
        self.state as u64
    }
}

/// Incremental FNV-1, 64 bits. Its view is the 64-bit state: the hash of
/// the bytes written so far.
#[derive(Debug, Copy, Clone)]
pub struct FnvHasher64 {
    state: u64,
}

impl View for FnvHasher64 {
    type V = u64;

    closed spec fn view(&self) -> u64 {
        self.state
    }
}

impl FnvHasher64 {
    /// A hasher that has seen no bytes.
    pub fn new() -> (hasher: Self)
        ensures
            hasher@ == FNV_64_OFFSET,
    {
        Self { state: FNV_64_OFFSET }
    }

    /// The 64-bit hash of the bytes written so far.
    pub fn finish_raw(&self) -> (hash: u64)
        ensures
            hash == self@,
    {
        self.state
    }
}

impl Default for FnvHasher64 {
    fn default() -> (hasher: Self)
        ensures
            hasher@ == FNV_64_OFFSET,
    {
        Self::new()
    }
}

impl std::hash::Hasher for FnvHasher64 {
    /// The hash of the bytes written so far.
    fn finish(&self) -> (digest: u64)
        ensures
            digest == self@,
    {
        self.state
    }

    /// Folds `bytes` into the state, in order.
    fn write(&mut self, bytes: &[u8])
        ensures
            final(self)@ == fnv_fold_64(false, old(self)@, bytes@),
    {
        self.state = fold_64(false, self.state, bytes);
    }
}

impl crate::hasher::StreamHasher for FnvHasher64 {
    type State = u64;

    open spec fn state(&self) -> u64 {
        self@
    }

    open spec fn start() -> u64 {
        FNV_64_OFFSET
    }

    open spec fn absorb(state: u64, bytes: Seq<u8>) -> u64 {
        fnv_fold_64(false, state, bytes)
    }

    open spec fn digest(state: u64) -> u64 {
        state
    }

    proof fn absorb_concat(state: u64, a: Seq<u8>, b: Seq<u8>) {
        lemma_fnv_fold_64_concat(false, state, a, b);
    }

    fn fresh() -> (hasher: Self) {
        Self::new()
    }

    fn write(&mut self, bytes: &[u8]) {
        self.state = fold_64(false, self.state, bytes);
    }

    fn finish(&self) -> (digest: u64) {
        self.state
    }
}

/// Incremental FNV-1a, 32 bits. Its view is the 32-bit state: the hash of
/// the bytes written so far.
#[derive(Debug, Copy, Clone)]
pub struct Fnv1aHasher32 {
    state: u32,
}

impl View for Fnv1aHasher32 {
    type V = u32;

    closed spec fn view(&self) -> u32 {
        self.state
    }
}

impl Fnv1aHasher32 {
    /// A hasher that has seen no bytes.
    pub fn new() -> (hasher: Self)
        ensures
            hasher@ == FNV_32_OFFSET,
    {
        Self { state: FNV_32_OFFSET }
    }

    /// The 32-bit hash of the bytes written so far.
    pub fn finish_raw(&self) -> (hash: u32)
        ensures
            hash == self@,
    {
        self.state
    }
}

impl Default for Fnv1aHasher32 {
    fn default() -> (hasher: Self)
        ensures
            hasher@ == FNV_32_OFFSET,
    {
        Self::new()
    }
}

impl std::hash::Hasher for Fnv1aHasher32 {
    /// The hash of the bytes written so far, widened to 64 bits.
    fn finish(&self) -> (digest: u64)
        ensures
            digest == self@,
    {
        self.state as u64
    }

    /// Folds `bytes` into the state, in order.
    fn write(&mut self, bytes: &[u8])
        ensures
            final(self)@ == fnv_fold_32(true, old(self)@, bytes@),
    {
        self.state = fold_32(true, self.state, bytes);
    }
}

impl crate::hasher::StreamHasher for Fnv1aHasher32 {
    type State = u32;

    open spec fn state(&self) -> u32 {
        self@
    }

    open spec fn start() -> u32 {
        FNV_32_OFFSET
    }

    open spec fn absorb(state: u32, bytes: Seq<u8>) -> u32 {
        fnv_fold_32(true, state, bytes)
    }

    open spec fn digest(state: u32) -> u64 {
        state as u64
    }

    proof fn absorb_concat(state: u32, a: Seq<u8>, b: Seq<u8>) {
        lemma_fnv_fold_32_concat(true, state, a, b);
    }

    fn fresh() -> (hasher: Self) {
        Self::new()
    }

    fn write(&mut self, bytes: &[u8]) {
        self.state = fold_32(true, self.state, bytes);
    }

    fn finish(&self) -> (digest: u64) {
        self.state as u64
    }
}

/// Incremental FNV-1a, 64 bits. Its view is the 64-bit state: the hash of
/// the bytes written so far.
#[derive(Debug, Copy, Clone)]
pub struct Fnv1aHasher64 {
    state: u64,
}

impl View for Fnv1aHasher64 {
    type V = u64;

    closed spec fn view(&self) -> u64 {
        self.state
    }
}

impl Fnv1aHasher64 {
    /// A hasher that has seen no bytes.
    pub fn new() -> (hasher: Self)
        ensures
            hasher@ == FNV_64_OFFSET,
    {
        Self { state: FNV_64_OFFSET }
    }

    /// The 64-bit hash of the bytes written so far.
    pub fn finish_raw(&self) -> (hash: u64)
        ensures
            hash == self@,
    {
        self.state
    }
}

impl Default for Fnv1aHasher64 {
    fn default() -> (hasher: Self)
        ensures
            hasher@ == FNV_64_OFFSET,
    {
        Self::new()
    }
}

impl std::hash::Hasher for Fnv1aHasher64 {
    /// The hash of the bytes written so far.
    fn finish(&self) -> (digest: u64)
        ensures
            digest == self@,
    {
        self.state
    }

    /// Folds `bytes` into the state, in order.
    fn write(&mut self, bytes: &[u8])
        ensures
            final(self)@ == fnv_fold_64(true, old(self)@, bytes@),
    {
        self.state = fold_64(true, self.state, bytes);
    }
}

impl crate::hasher::StreamHasher for Fnv1aHasher64 {
    type State = u64;

    open spec fn state(&self) -> u64 {
        self@
    }

    open spec fn start() -> u64 {
        FNV_64_OFFSET
    }

    open spec fn absorb(state: u64, bytes: Seq<u8>) -> u64 {
        fnv_fold_64(true, state, bytes)
    }

    open spec fn digest(state: u64) -> u64 {
        state
    }

    proof fn absorb_concat(state: u64, a: Seq<u8>, b: Seq<u8>) {
        lemma_fnv_fold_64_concat(true, state, a, b);
    }

    fn fresh() -> (hasher: Self) {
        Self::new()
    }

    fn write(&mut self, bytes: &[u8]) {
        self.state = fold_64(true, self.state, bytes);
    }

    fn finish(&self) -> (digest: u64) {
        self.state
    }
}

/// FNV-1, 32 bits, of `data`. The empty input hashes to the offset basis.
pub fn fnv1_32(data: &[u8]) -> (hash: u32)
    ensures
        hash == fnv1_32_spec(data@),
{
    fold_32(false, FNV_32_OFFSET, data)
}

/// FNV-1a, 32 bits, of `data`. The empty input hashes to the offset basis.
pub fn fnv1a_32(data: &[u8]) -> (hash: u32)
    ensures
        hash == fnv1a_32_spec(data@),
{
    fold_32(true, FNV_32_OFFSET, data)
}

/// FNV-1, 64 bits, of `data`. The empty input hashes to the offset basis.
pub fn fnv1_64(data: &[u8]) -> (hash: u64)
    ensures
        hash == fnv1_64_spec(data@),
{
    fold_64(false, FNV_64_OFFSET, data)
}

/// FNV-1a, 64 bits, of `data`. The empty input hashes to the offset basis.
pub fn fnv1a_64(data: &[u8]) -> (hash: u64)
    ensures
        hash == fnv1a_64_spec(data@),
{
    fold_64(true, FNV_64_OFFSET, data)
}

} // verus!
