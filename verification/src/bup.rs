//! Windowed-checksum rolling hash ("bup" style).
//!
//! The engine keeps a 64-byte circular window and two running accumulators.
//! The first accumulator is the sum of the window's bytes (plus a fixed
//! per-byte offset), the second is a position-weighted sum of the window;
//! the 32-bit digest packs the low 16 bits of each.

use crate::RollingHash;
use vstd::prelude::*;
use vstd::std_specs::bits::u32_trailing_ones;

verus! {

broadcast use vstd::std_specs::bits::group_bits_axioms;

/// The digest type of the windowed-checksum engine.
pub type Digest = u32;

/// The fixed window size.
pub const WINDOW_SIZE: usize = 64;

/// Offset added to every byte so that an all-zero window still produces a
/// usable state.
pub const CHAR_OFFSET: usize = 31;

/// The sum of the bytes of `s`.
pub open spec fn byte_sum(s: Seq<u8>) -> int
    decreases s.len(),
{
    if s.len() == 0 {
        0
    } else {
        byte_sum(s.drop_last()) + s.last()
    }
}

/// The position-weighted sum of the bytes of `s`: the byte `s[k]` counts
/// `s.len() - k` times, so older bytes weigh more.
pub open spec fn weighted_sum(s: Seq<u8>) -> int
    decreases s.len(),
{
    if s.len() == 0 {
        0
    } else {
        weighted_sum(s.drop_last()) + byte_sum(s)
    }
}

/// A sequence of `n` zero bytes.
pub open spec fn zero_bytes(n: nat) -> Seq<u8> {
    Seq::new(n, |i: int| 0u8)
}

/// The window contents after processing `h` from a fresh engine, oldest
/// byte first: the last 64 bytes of `h` extended on the left with zeros.
pub open spec fn bup_window_of(h: Seq<u8>) -> Seq<u8> {
    if h.len() >= 64 {
        h.skip(h.len() - 64)
    } else {
        zero_bytes((64 - h.len()) as nat) + h
    }
}

/// The first accumulator as a function of the window.
pub open spec fn bup_s1_of(w: Seq<u8>) -> int {
    64 * 31 + byte_sum(w)
}

/// The second accumulator as a function of the window.
pub open spec fn bup_s2_of(w: Seq<u8>) -> int {
    64 * 63 * 31 + weighted_sum(w)
}

/// The digest after processing `h` from a fresh engine: the low 16 bits of
/// each accumulator, first accumulator in the high half.
pub open spec fn bup_digest_of(h: Seq<u8>) -> u32 {
    ((bup_s1_of(bup_window_of(h)) % 0x10000) * 0x10000 + (bup_s2_of(bup_window_of(h))
        % 0x10000)) as u32
}

proof fn lemma_byte_sum_push(s: Seq<u8>, b: u8)
    ensures
        byte_sum(s.push(b)) == byte_sum(s) + b,
{
    assert(s.push(b).drop_last() =~= s);
}

proof fn lemma_byte_sum_skip1(s: Seq<u8>)
    requires
        s.len() >= 1,
    ensures
        byte_sum(s.skip(1)) == byte_sum(s) - s[0],
    decreases s.len(),
{
    if s.len() == 1 {
        assert(s.skip(1) =~= Seq::<u8>::empty());
        assert(s.drop_last() =~= Seq::<u8>::empty());
    } else {
        lemma_byte_sum_skip1(s.drop_last());
        assert(s.skip(1).drop_last() =~= s.drop_last().skip(1));
        assert(s.skip(1).last() == s.last());
        assert(s.drop_last()[0] == s[0]);
    }
}

proof fn lemma_byte_sum_bounds(s: Seq<u8>)
    ensures
        0 <= byte_sum(s) <= 255 * s.len(),
    decreases s.len(),
{
    if s.len() > 0 {
        lemma_byte_sum_bounds(s.drop_last());
    }
}

proof fn lemma_weighted_sum_push(s: Seq<u8>, b: u8)
    ensures
        weighted_sum(s.push(b)) == weighted_sum(s) + byte_sum(s.push(b)),
{
    assert(s.push(b).drop_last() =~= s);
}

proof fn lemma_weighted_sum_skip1(s: Seq<u8>)
    requires
        s.len() >= 1,
    ensures
        weighted_sum(s.skip(1)) == weighted_sum(s) - s.len() * s[0],
    decreases s.len(),
{
    if s.len() == 1 {
        assert(s.skip(1) =~= Seq::<u8>::empty());
        assert(s.drop_last() =~= Seq::<u8>::empty());
        assert(byte_sum(Seq::<u8>::empty()) == 0);
        assert(weighted_sum(Seq::<u8>::empty()) == 0);
        assert(s.last() == s[0]);
        assert(byte_sum(s) == s[0]);
    } else {
        lemma_weighted_sum_skip1(s.drop_last());
        lemma_byte_sum_skip1(s);
        assert(s.skip(1).drop_last() =~= s.drop_last().skip(1));
        assert(s.drop_last()[0] == s[0]);
        assert(weighted_sum(s.skip(1)) == weighted_sum(s.skip(1).drop_last()) + byte_sum(
            s.skip(1),
        ));
        assert((s.len() - 1) * s[0] + s[0] == s.len() * s[0]) by (nonlinear_arith);
    }
}

proof fn lemma_weighted_sum_bounds(s: Seq<u8>)
    ensures
        0 <= weighted_sum(s) <= 255 * s.len() * s.len(),
    decreases s.len(),
{
    if s.len() > 0 {
        let n = s.len() as int;
        lemma_weighted_sum_bounds(s.drop_last());
        lemma_byte_sum_bounds(s);
        assert(255 * (n - 1) * (n - 1) + 255 * n <= 255 * n * n) by (nonlinear_arith)
            requires
                n >= 1,
        ;
    }
}

proof fn lemma_zero_sums(n: nat)
    ensures
        byte_sum(zero_bytes(n)) == 0,
        weighted_sum(zero_bytes(n)) == 0,
    decreases n,
{
    if n > 0 {
        lemma_zero_sums((n - 1) as nat);
        assert(zero_bytes(n).drop_last() =~= zero_bytes((n - 1) as nat));
        assert(zero_bytes(n).last() == 0u8);
    }
}

/// Processing one more byte shifts the window: the oldest byte leaves, the
/// new byte enters on the right.
proof fn lemma_window_step(h: Seq<u8>, b: u8)
    ensures
        bup_window_of(h.push(b)) == bup_window_of(h).skip(1).push(b),
{
    assert(bup_window_of(h.push(b)) =~= bup_window_of(h).skip(1).push(b));
}

/// The window after feeding one more byte, as one step: the oldest byte
/// leaves on the left, the new byte enters on the right.
pub open spec fn bup_window_fold(w: Seq<u8>, s: Seq<u8>) -> Seq<u8>
    decreases s.len(),
{
    if s.len() == 0 {
        w
    } else {
        bup_window_fold(w, s.drop_last()).skip(1).push(s.last())
    }
}

/// Feeding a buffer equals feeding its bytes one at a time: the window
/// (which determines the digest) after a history `h` followed by a slice
/// `s` is the per-byte window step folded over `s` from the window after
/// `h`, whatever `h` and `s` are.
pub proof fn lemma_bup_roll_is_byte_steps(h: Seq<u8>, s: Seq<u8>)
    ensures
        bup_window_of(h + s) == bup_window_fold(bup_window_of(h), s),
    decreases s.len(),
{
    if s.len() == 0 {
        assert(h + s =~= h);
    } else {
        lemma_bup_roll_is_byte_steps(h, s.drop_last());
        lemma_window_step(h + s.drop_last(), s.last());
        assert((h + s.drop_last()).push(s.last()) =~= h + s);
    }
}

/// A suffix of 64 or more bytes determines the window by itself.
proof fn lemma_window_long_suffix(a: Seq<u8>, t: Seq<u8>)
    requires
        t.len() >= 64,
    ensures
        bup_window_of(a + t) == bup_window_of(t),
{
    assert(bup_window_of(a + t) =~= bup_window_of(t));
}

/// Window locality: the digest of a stream of 64 or more bytes depends only
/// on its last 64 bytes, so dropping any prefix that leaves at least 64
/// bytes in place leaves the digest unchanged.
pub proof fn lemma_bup_window_locality(s: Seq<u8>, k: int)
    requires
        0 <= k <= s.len() - 64,
    ensures
        bup_digest_of(s.skip(k)) == bup_digest_of(s),
{
    assert(bup_window_of(s.skip(k)) =~= bup_window_of(s));
}

/// Windowed-checksum rolling hash engine.
pub struct Bup {
    s1: usize,
    s2: usize,
    window: Vec<u8>,
    wofs: usize,
    hist: Ghost<Seq<u8>>,
}

impl Bup {
    /// The window bytes in processing order, oldest first.
    closed spec fn logical_window(&self) -> Seq<u8> {
        self.window@.skip(self.wofs as int) + self.window@.take(self.wofs as int)
    }

    /// Create a new engine with the default chunking settings.
    pub fn new() -> (r: Self)
        ensures
            r.wf(),
            r.processed() == Seq::<u8>::empty(),
    {
        let mut window: Vec<u8> = Vec::new();
        let mut i: usize = 0;
        while i < WINDOW_SIZE
            invariant
                i <= 64,
                window@.len() == i,
                forall|j: int| 0 <= j < i ==> window@[j] == 0u8,
            decreases 64 - i,
        {
            window.push(0u8);
            i += 1;
        }
        proof {
            assert(WINDOW_SIZE * CHAR_OFFSET == 1984) by (nonlinear_arith);
            assert(WINDOW_SIZE * (WINDOW_SIZE - 1) * CHAR_OFFSET == 124992) by (nonlinear_arith);
        }
        let r = Bup {
            s1: WINDOW_SIZE * CHAR_OFFSET,
            s2: WINDOW_SIZE * (WINDOW_SIZE - 1) * CHAR_OFFSET,
            window,
            wofs: 0,
            hist: Ghost(Seq::empty()),
        };
        proof {
            lemma_zero_sums(64);
            assert(r.logical_window() =~= zero_bytes(64));
            assert(bup_window_of(Seq::<u8>::empty()) =~= zero_bytes(64));
        }
        r
    }

    /// Advance both accumulators: `added` enters the window, `dropped`
    /// leaves it.
    fn add(&mut self, dropped: u8, added: u8)
        requires
            dropped as int <= old(self).s1 as int,
            old(self).s1 as int + 255 <= 0x10_0000,
            old(self).s2 as int + 0x10_0000 <= 0x1000_0000,
            64 * (dropped as int + 31) <= old(self).s2 as int + old(self).s1 as int + added
                - dropped,
        ensures
            final(self).s1 as int == old(self).s1 as int + added - dropped,
            final(self).s2 as int == old(self).s2 as int + final(self).s1 as int - 64 * (
            dropped as int + 31),
            final(self).window == old(self).window,
            final(self).wofs == old(self).wofs,
            final(self).hist == old(self).hist,
    {
        self.s1 = self.s1 + added as usize - dropped as usize;
        self.s2 = self.s2 + self.s1 - WINDOW_SIZE * (dropped as usize + CHAR_OFFSET);
    }
}

impl Default for Bup {
    /// The fresh engine state.
    fn default() -> (r: Self)
        ensures
            r.wf(),
            r.processed() == Seq::<u8>::empty(),
    {
        Bup::new()
    }
}

/// Packing the two accumulators' low halves with shift and mask equals the
/// arithmetic form used by the digest specification.
proof fn lemma_pack_digest(s1d: u32, s2d: u32)
    ensures
        ((s1d << 16) | (s2d & 0xffff)) == ((s1d % 0x10000) * 0x10000 + (s2d % 0x10000)) as u32,
{
    assert(((s1d << 16) | (s2d & 0xffff)) == ((s1d % 0x10000) * 0x10000 + (s2d
        % 0x10000)) as u32) by (bit_vector);
}

/// The accumulator bounds that the well-formedness invariant implies.
proof fn lemma_bup_state_bounds(w: Seq<u8>)
    requires
        w.len() == 64,
    ensures
        64 * 31 <= bup_s1_of(w) <= 64 * 31 + 255 * 64,
        64 * 63 * 31 <= bup_s2_of(w) <= 64 * 63 * 31 + 255 * 64 * 64,
{
    lemma_byte_sum_bounds(w);
    lemma_weighted_sum_bounds(w);
}

impl RollingHash for Bup {
    type Digest = u32;

    closed spec fn wf(&self) -> bool {
        &&& self.window@.len() == 64
        &&& self.wofs < 64
        &&& self.logical_window() == bup_window_of(self.hist@)
        &&& self.s1 as int == bup_s1_of(bup_window_of(self.hist@))
        &&& self.s2 as int == bup_s2_of(bup_window_of(self.hist@))
    }

    closed spec fn processed(&self) -> Seq<u8> {
        self.hist@
    }

    open spec fn digest_of(s: Seq<u8>) -> u32 {
        bup_digest_of(s)
    }

    fn roll_byte(&mut self, byte: u8) {
        let ghost h = self.hist@;
        let ghost w = bup_window_of(h);
        proof {
            lemma_bup_state_bounds(w);
            assert(self.logical_window()[0] == self.window@[self.wofs as int]);
        }
        let prevch = self.window[self.wofs];
        assert(prevch == w[0]);
        self.add(prevch, byte);
        self.window[self.wofs] = byte;
        self.wofs = if self.wofs + 1 == WINDOW_SIZE {
            0
        } else {
            self.wofs + 1
        };
        proof {
            self.hist@ = h.push(byte);
            lemma_window_step(h, byte);
            assert(self.logical_window() =~= w.skip(1).push(byte));
            lemma_byte_sum_skip1(w);
            lemma_byte_sum_push(w.skip(1), byte);
            lemma_weighted_sum_skip1(w);
            lemma_weighted_sum_push(w.skip(1), byte);
        }
    }

    fn roll(&mut self, buf: &[u8]) {
        let ghost h0 = self.hist@;
        let n = buf.len();
        let start = if n > WINDOW_SIZE {
            n - WINDOW_SIZE
        } else {
            0
        };
        proof {
            assert(h0 + buf@.subrange(start as int, start as int) =~= h0);
        }
        let mut i: usize = start;
        #[verifier::loop_isolation(false)]
        while i < n
            invariant
                start <= i <= n,
                self.wf(),
                self.processed() == h0 + buf@.subrange(start as int, i as int),
            decreases n - i,
        {
            self.roll_byte(buf[i]);
            proof {
                assert((h0 + buf@.subrange(start as int, i as int)).push(buf@[i as int]) =~= h0
                    + buf@.subrange(start as int, i as int + 1));
            }
            i += 1;
        }
        proof {
            let lw = buf@.subrange(start as int, n as int);
            if n > 64 {
                assert(lw.len() == 64);
                lemma_window_long_suffix(h0, lw);
                lemma_window_long_suffix(h0 + buf@.subrange(0, start as int), lw);
                assert((h0 + buf@.subrange(0, start as int)) + lw =~= h0 + buf@);
            } else {
                assert(lw =~= buf@);
            }
            self.hist@ = h0 + buf@;
        }
    }

    fn digest(&self) -> (d: u32) {
        proof {
            lemma_bup_state_bounds(bup_window_of(self.hist@));
        }
        let s1d = self.s1 as u32;
        let s2d = self.s2 as u32;
        let d = (s1d << 16) | (s2d & 0xffff);
        proof {
            assert((s1d << 16) | (s2d & 0xffff) == ((s1d % 0x10000) * 0x10000 + (s2d
                % 0x10000)) as u32) by (bit_vector);
        }
        d
    }

    fn reset(&mut self) {
        *self = Bup::new();
    }

    fn find_chunk_edge_cond<F: Fn(u32) -> bool>(&mut self, buf: &[u8], cond: F) -> (r: Option<
        usize,
    >) {
        let ghost h0 = self.hist@;
        let n = buf.len();
        let n1 = if n < WINDOW_SIZE {
            n
        } else {
            WINDOW_SIZE
        };
        // While the window is filling, roll byte by byte.
        let mut i: usize = 0;
        #[verifier::loop_isolation(false)]
        while i < n1
            invariant
                i <= n1,
                self.wf(),
                self.processed() == crate::fed_prefix(h0, buf@, i as int),
                forall|j: int|
                    1 <= j <= i as int ==> call_ensures(
                        cond,
                        (bup_digest_of(#[trigger] crate::fed_prefix(h0, buf@, j)),),
                        false,
                    ),
            decreases n1 - i,
        {
            self.roll_byte(buf[i]);
            proof {
                assert(crate::fed_prefix(h0, buf@, i as int).push(buf@[i as int])
                    =~= crate::fed_prefix(h0, buf@, i as int + 1));
            }
            let d = self.digest();
            if cond(d) {
                self.reset();
                return Some(i + 1);
            }
            i += 1;
        }
        if n > WINDOW_SIZE {
            // The window is full: update the accumulators from the stream
            // itself, dropping the byte that leaves the window directly from
            // the buffer; the circular buffer is reconciled only on success
            // or exhaustion.
            let mut k: usize = 0;
            #[verifier::loop_isolation(false)]
            while k < n - WINDOW_SIZE
                invariant
                    k <= n - 64,
                    n > 64,
                    self.window@.len() == 64,
                    self.hist@ == crate::fed_prefix(h0, buf@, 64 + k as int),
                    bup_window_of(self.hist@) == buf@.subrange(k as int, k as int + 64),
                    self.s1 as int == bup_s1_of(bup_window_of(self.hist@)),
                    self.s2 as int == bup_s2_of(bup_window_of(self.hist@)),
                    forall|j: int|
                        1 <= j <= 64 + k as int ==> call_ensures(
                            cond,
                            (bup_digest_of(#[trigger] crate::fed_prefix(h0, buf@, j)),),
                            false,
                        ),
                decreases n - 64 - k,
            {
                let ghost hprev = self.hist@;
                let ghost w = bup_window_of(hprev);
                let dropped = buf[k];
                let added = buf[k + WINDOW_SIZE];
                proof {
                    lemma_bup_state_bounds(w);
                    assert(w[0] == dropped);
                }
                self.add(dropped, added);
                proof {
                    self.hist@ = hprev.push(added);
                    lemma_window_step(hprev, added);
                    assert(bup_window_of(self.hist@) =~= buf@.subrange(
                        k as int + 1,
                        k as int + 65,
                    ));
                    lemma_byte_sum_skip1(w);
                    lemma_byte_sum_push(w.skip(1), added);
                    lemma_weighted_sum_skip1(w);
                    lemma_weighted_sum_push(w.skip(1), added);
                    assert(crate::fed_prefix(h0, buf@, 64 + k as int).push(added)
                        =~= crate::fed_prefix(h0, buf@, 64 + k as int + 1));
                    lemma_bup_state_bounds(bup_window_of(self.hist@));
                }
                let s1d = self.s1 as u32;
                let s2d = self.s2 as u32;
                proof {
                    lemma_pack_digest(s1d, s2d);
                }
                let d = (s1d << 16) | (s2d & 0xffff);
                assert(d == bup_digest_of(self.hist@));
                if cond(d) {
                    self.reset();
                    return Some(WINDOW_SIZE + k + 1);
                }
                k += 1;
            }
            // No edge found: copy the trailing window back into the
            // circular buffer.
            self.wofs = 0;
            let mut t: usize = 0;
            #[verifier::loop_isolation(false)]
            while t < WINDOW_SIZE
                invariant
                    t <= 64,
                    n > 64,
                    self.window@.len() == 64,
                    self.wofs == 0,
                    self.hist@ == crate::fed_prefix(h0, buf@, n as int),
                    bup_window_of(self.hist@) == buf@.subrange(n - 64, n as int),
                    self.s1 as int == bup_s1_of(bup_window_of(self.hist@)),
                    self.s2 as int == bup_s2_of(bup_window_of(self.hist@)),
                    forall|j: int| 0 <= j < t ==> self.window@[j] == buf@[n - 64 + j],
                    forall|j: int|
                        1 <= j <= n as int ==> call_ensures(
                            cond,
                            (bup_digest_of(#[trigger] crate::fed_prefix(h0, buf@, j)),),
                            false,
                        ),
                decreases 64 - t,
            {
                self.window[t] = buf[n - WINDOW_SIZE + t];
                t += 1;
            }
            proof {
                assert(self.logical_window() =~= buf@.subrange(n - 64, n as int));
            }
        }
        proof {
            assert(crate::fed_prefix(h0, buf@, n as int) =~= h0 + buf@);
        }
        None
    }
}

/// Count the matched boundary bits of a digest: `chunk_bits`, plus the run
/// of consecutive one-bits found after additionally discarding one bit above
/// the matched prefix. Skipping that extra bit reproduces the behaviour of
/// the other implementations of this checksum and is kept on purpose.
pub open spec fn count_bits_spec(chunk_bits: u32, digest: u32) -> int {
    chunk_bits + u32_trailing_ones((digest >> chunk_bits) >> 1)
}

/// Count the number of low bits set in a digest taken at a chunk edge,
/// assuming its bottom `chunk_bits` bits already matched the boundary
/// pattern. One extra bit above the matched prefix is deliberately skipped
/// for compatibility with other implementations of this checksum.
pub fn count_bits(chunk_bits: u32, digest: u32) -> (r: u32)
    requires
        chunk_bits < 32,
    ensures
        r as int == count_bits_spec(chunk_bits, digest),
{
    let rsum = digest >> chunk_bits;
    let rsum = rsum >> 1;
    rsum.trailing_ones() + chunk_bits
}

} // verus!
