//! Content-defined chunking primitives: rolling-hash engines and
//! boundary-detection drivers that cut a byte stream into variable-length
//! chunks at positions determined only by local content.
//!
//! Every engine is modelled by the sequence of bytes it has processed since
//! its last reset; digests and boundary decisions are specified as pure
//! functions of that sequence.

use vstd::prelude::*;

pub mod bup;
pub mod fastcdc;
pub mod gear;

pub use crate::bup::Bup;
pub use crate::fastcdc::FastCDC;
pub use crate::gear::Gear;

verus! {

/// A digest value that can be tested against a bitmask.
///
/// Boundary predicates have the shape `digest & mask == 0`; this trait lets
/// the generic chunker state that test for any digest width.
pub trait DigestMask: Sized + Copy {
    /// What `masked_zero` returns: all bits selected by `mask` are clear.
    spec fn masked_zero_spec(self, mask: Self) -> bool;

    /// Test whether every bit selected by `mask` is clear in `self`.
    fn masked_zero(self, mask: Self) -> (b: bool)
        ensures
            b == self.masked_zero_spec(mask),
    ;
}

impl DigestMask for u32 {
    open spec fn masked_zero_spec(self, mask: Self) -> bool {
        self & mask == 0u32
    }

    fn masked_zero(self, mask: Self) -> (b: bool) {
        (self & mask) == 0
    }
}

impl DigestMask for u64 {
    open spec fn masked_zero_spec(self, mask: Self) -> bool {
        self & mask == 0u64
    }

    fn masked_zero(self, mask: Self) -> (b: bool) {
        (self & mask) == 0
    }
}

/// The bytes an engine has seen after feeding the first `j` bytes of `buf`
/// on top of the already-processed sequence `h`.
pub open spec fn fed_prefix(h: Seq<u8>, buf: Seq<u8>, j: int) -> Seq<u8> {
    h + buf.subrange(0, j)
}

/// Rolling sum engine trait.
///
/// An engine's observable state is `processed()`, the sequence of bytes fed
/// since construction or the last reset; its digest is a pure function
/// (`digest_of`) of that sequence.
pub trait RollingHash: Sized {
    type Digest;

    /// Well-formedness of the engine's internal state.
    spec fn wf(&self) -> bool;

    /// The bytes fed since construction or the most recent reset.
    spec fn processed(&self) -> Seq<u8>;

    /// The digest an engine reports after having processed `s`.
    spec fn digest_of(s: Seq<u8>) -> Self::Digest;

    /// Roll over one byte.
    fn roll_byte(&mut self, byte: u8)
        requires
            old(self).wf(),
        ensures
            final(self).wf(),
            final(self).processed() == old(self).processed().push(byte),
    ;

    /// Roll over a slice of bytes.
    fn roll(&mut self, buf: &[u8])
        requires
            old(self).wf(),
        ensures
            final(self).wf(),
            final(self).processed() == old(self).processed() + buf@,
    {
        let ghost h0 = self.processed();
        let n = buf.len();
        let mut i: usize = 0;
        #[verifier::loop_isolation(false)]
        while i < n
            invariant
                self.wf(),
                i <= n,
                self.processed() == fed_prefix(h0, buf@, i as int),
            decreases n - i,
        {
            self.roll_byte(buf[i]);
            proof {
                assert(buf@.subrange(0, i as int).push(buf@[i as int]) =~= buf@.subrange(
                    0,
                    i as int + 1,
                ));
                assert(fed_prefix(h0, buf@, i as int).push(buf@[i as int]) =~= fed_prefix(
                    h0,
                    buf@,
                    i as int + 1,
                ));
            }
            i += 1;
        }
        proof {
            assert(buf@.subrange(0, n as int) =~= buf@);
        }
    }

    /// Return the current rolling sum digest.
    fn digest(&self) -> (d: Self::Digest)
        requires
            self.wf(),
        ensures
            d == Self::digest_of(self.processed()),
    ;

    /// Restore the state of a freshly constructed engine.
    fn reset(&mut self)
        ensures
            final(self).wf(),
            final(self).processed() == Seq::<u8>::empty(),
    ;

    /// Find the end of the chunk.
    ///
    /// Feeds the engine bytes from `buf` one at a time and evaluates `cond`
    /// on the digest after each byte. On the first `true` the engine is
    /// reset and the 1-indexed count of consumed bytes is returned; if `buf`
    /// is exhausted without a match, the advanced state is kept so a later
    /// call can continue with the rest of the stream.
    fn find_chunk_edge_cond<F: Fn(Self::Digest) -> bool>(&mut self, buf: &[u8], cond: F) -> (r:
        Option<usize>)
        requires
            old(self).wf(),
            forall|d: Self::Digest| #[trigger] call_requires(cond, (d,)),
        ensures
            final(self).wf(),
            match r {
                Some(i) => {
                    &&& 1 <= i <= buf@.len()
                    &&& call_ensures(
                        cond,
                        (Self::digest_of(fed_prefix(old(self).processed(), buf@, i as int)),),
                        true,
                    )
                    &&& (forall|j: int|
                        1 <= j < i as int ==> call_ensures(
                            cond,
                            (Self::digest_of(#[trigger] fed_prefix(old(self).processed(), buf@, j)),),
                            false,
                        ))
                    &&& final(self).processed() == Seq::<u8>::empty()
                },
                None => {
                    &&& final(self).processed() == old(self).processed() + buf@
                    &&& (forall|j: int|
                        1 <= j <= buf@.len() ==> call_ensures(
                            cond,
                            (Self::digest_of(#[trigger] fed_prefix(old(self).processed(), buf@, j)),),
                            false,
                        ))
                },
            },
    {
        let ghost h0 = self.processed();
        let n = buf.len();
        let mut i: usize = 0;
        #[verifier::loop_isolation(false)]
        while i < n
            invariant
                self.wf(),
                i <= n,
                self.processed() == fed_prefix(h0, buf@, i as int),
                forall|j: int|
                    1 <= j <= i as int ==> call_ensures(
                        cond,
                        (Self::digest_of(#[trigger] fed_prefix(h0, buf@, j)),),
                        false,
                    ),
            decreases n - i,
        {
            self.roll_byte(buf[i]);
            proof {
                assert(buf@.subrange(0, i as int).push(buf@[i as int]) =~= buf@.subrange(
                    0,
                    i as int + 1,
                ));
                assert(fed_prefix(h0, buf@, i as int).push(buf@[i as int]) =~= fed_prefix(
                    h0,
                    buf@,
                    i as int + 1,
                ));
            }
            let d = self.digest();
            if cond(d) {
                self.reset();
                return Some(i + 1);
            }
            i += 1;
        }
        proof {
            assert(buf@.subrange(0, n as int) =~= buf@);
        }
        None
    }
}

/// The trailing window of `s`: the whole of `s` when it is no longer than
/// `w`, else its last `w` bytes.
pub open spec fn last_window(s: Seq<u8>, w: nat) -> Seq<u8> {
    if s.len() <= w { s } else { s.skip(s.len() - w as int) }
}

/// The concatenation, in order, of the chunks delimited by consecutive
/// entries of `cuts`.
pub open spec fn concat_chunks(buf: Seq<u8>, cuts: Seq<int>) -> Seq<u8>
    decreases cuts.len(),
{
    if cuts.len() <= 1 {
        Seq::<u8>::empty()
    } else {
        concat_chunks(buf, cuts.drop_last()) + buf.subrange(
            cuts[cuts.len() - 2],
            cuts[cuts.len() - 1],
        )
    }
}

/// Round trip: the chunks delimited by successive boundary offsets,
/// concatenated in stream order, reproduce exactly the covered part of the
/// buffer — no bytes dropped, duplicated, or reordered.
pub proof fn lemma_chunks_reassemble(buf: Seq<u8>, cuts: Seq<int>)
    requires
        cuts.len() >= 1,
        cuts[0] == 0,
        forall|k: int| 0 <= k < cuts.len() ==> 0 <= #[trigger] cuts[k] <= buf.len(),
        forall|k: int| 0 <= k < cuts.len() - 1 ==> #[trigger] cuts[k] <= cuts[k + 1],
    ensures
        concat_chunks(buf, cuts) == buf.subrange(0, cuts[cuts.len() - 1]),
    decreases cuts.len(),
{
    if cuts.len() == 1 {
        assert(concat_chunks(buf, cuts) =~= buf.subrange(0, cuts[0]));
    } else {
        let front = cuts.drop_last();
        lemma_chunks_reassemble(buf, front);
        let a = cuts[cuts.len() - 2];
        let b = cuts[cuts.len() - 1];
        assert(front[front.len() - 1] == a);
        assert(buf.subrange(0, a) + buf.subrange(a, b) =~= buf.subrange(0, b));
    }
}

/// The chunks of a boundary run, concatenated in stream order.
pub open spec fn concat_run_chunks(pend0: Seq<u8>, buf: Seq<u8>, cuts: Seq<int>) -> Seq<u8>
    decreases cuts.len(),
{
    if cuts.len() == 0 {
        Seq::<u8>::empty()
    } else {
        concat_run_chunks(pend0, buf, cuts.drop_last()) + run_chunk(
            pend0,
            buf,
            cuts,
            cuts.len() - 1,
        )
    }
}

proof fn lemma_run_cut_positive(cuts: Seq<int>, t: int)
    requires
        forall|u: int| 0 <= u < cuts.len() ==> run_start(cuts, u) < #[trigger] cuts[u],
        0 <= t < cuts.len(),
    ensures
        cuts[t] > 0,
    decreases t,
{
    if t > 0 {
        lemma_run_cut_positive(cuts, t - 1);
    }
}

/// Round trip at the driver level: the chunks of a boundary run,
/// concatenated in stream order, followed by the bytes still pending after
/// the run, reproduce the carried-in bytes and the whole buffer — no bytes
/// dropped, duplicated, or reordered.
pub proof fn lemma_run_reassembles(pend0: Seq<u8>, buf: Seq<u8>, cuts: Seq<int>)
    requires
        forall|t: int|
            0 <= t < cuts.len() ==> run_start(cuts, t) < #[trigger] cuts[t] <= buf.len(),
    ensures
        concat_run_chunks(pend0, buf, cuts) + run_base(pend0, cuts) + buf.subrange(
            run_last(cuts),
            buf.len() as int,
        ) == pend0 + buf,
    decreases cuts.len(),
{
    if cuts.len() == 0 {
        assert(concat_run_chunks(pend0, buf, cuts) + run_base(pend0, cuts) + buf.subrange(
            0,
            buf.len() as int,
        ) =~= pend0 + buf);
    } else {
        let front = cuts.drop_last();
        let k = cuts.len() - 1;
        assert forall|t: int| 0 <= t < front.len() implies run_start(front, t)
            < #[trigger] front[t] <= buf.len() by {
            assert(front[t] == cuts[t]);
            if t > 0 {
                assert(front[t - 1] == cuts[t - 1]);
            }
        }
        lemma_run_reassembles(pend0, buf, front);
        if k == 0 {
            assert(concat_run_chunks(pend0, buf, cuts) =~= pend0 + buf.subrange(0, cuts[0]));
            assert(concat_run_chunks(pend0, buf, cuts) + run_base(pend0, cuts) + buf.subrange(
                cuts[0],
                buf.len() as int,
            ) =~= pend0 + buf);
        } else {
            lemma_run_cut_positive(cuts, k - 1);
            assert(front[k - 1] == cuts[k - 1]);
            assert(run_last(front) == cuts[k - 1]);
            assert(run_base(pend0, front) =~= Seq::<u8>::empty());
            assert(concat_run_chunks(pend0, buf, cuts) + run_base(pend0, cuts) + buf.subrange(
                cuts[k],
                buf.len() as int,
            ) =~= concat_run_chunks(pend0, buf, front) + run_base(pend0, front) + buf.subrange(
                cuts[k - 1],
                buf.len() as int,
            ));
        }
    }
}

/// The offset at which the chunk closed by entry `t` of `cuts` begins.
pub open spec fn run_start(cuts: Seq<int>, t: int) -> int {
    if t == 0 {
        0
    } else {
        cuts[t - 1]
    }
}

/// The offset just after the last boundary of `cuts` (the whole buffer is
/// still pending when there is none).
pub open spec fn run_last(cuts: Seq<int>) -> int {
    if cuts.len() == 0 {
        0
    } else {
        cuts.last()
    }
}

/// The bytes carried at the bottom of the chunk that is still open after
/// the boundaries `cuts`: the carried-in bytes while no boundary was made,
/// nothing once one was.
pub open spec fn run_base(pend0: Seq<u8>, cuts: Seq<int>) -> Seq<u8> {
    if cuts.len() == 0 {
        pend0
    } else {
        Seq::<u8>::empty()
    }
}

/// The chunk closed by entry `t` of `cuts`: all bytes since the previous
/// boundary, with the carried-in bytes `pend0` in front of the first chunk.
pub open spec fn run_chunk(pend0: Seq<u8>, buf: Seq<u8>, cuts: Seq<int>, t: int) -> Seq<u8>
    recommends
        0 <= t < cuts.len(),
{
    if t == 0 {
        pend0 + buf.subrange(0, cuts[0])
    } else {
        buf.subrange(cuts[t - 1], cuts[t])
    }
}

/// A proper prefix of the chunk closed by entry `t`, ending at absolute
/// buffer offset `j`.
pub open spec fn run_prefix(pend0: Seq<u8>, buf: Seq<u8>, cuts: Seq<int>, t: int, j: int) -> Seq<
    u8,
>
    recommends
        0 <= t < cuts.len(),
        run_start(cuts, t) <= j,
{
    if t == 0 {
        pend0 + buf.subrange(0, j)
    } else {
        buf.subrange(cuts[t - 1], j)
    }
}

/// A driver that cuts a byte stream into chunks.

///
/// The chunker's observable state is `pending()`, the bytes accumulated
/// toward the not-yet-closed chunk; `is_cut(p)` says whether a chunk
/// consisting exactly of the bytes `p` ends at a boundary.
pub trait Chunker: Sized {
    /// Well-formedness of the chunker's internal state.
    spec fn wf(&self) -> bool;

    /// The bytes accumulated toward the current, not-yet-closed chunk.
    spec fn pending(&self) -> Seq<u8>;

    /// Whether a chunk made of exactly the bytes `p` ends at a boundary.
    spec fn is_cut(&self, p: Seq<u8>) -> bool;

    /// Find the next split position.
    ///
    /// Returns `Some(i)` when the first `i` bytes of `buf` close the current
    /// chunk at the earliest boundary, resetting the chunker; `None` when all
    /// of `buf` was absorbed into the current chunk without a boundary.
    fn chunk_end(&mut self, buf: &[u8]) -> (r: Option<usize>)
        requires
            old(self).wf(),
        ensures
            final(self).wf(),
            (forall|p: Seq<u8>| #[trigger] final(self).is_cut(p) == old(self).is_cut(p)),
            match r {
                Some(i) => {
                    &&& 1 <= i <= buf@.len()
                    &&& final(self).is_cut(fed_prefix(old(self).pending(), buf@, i as int))
                    &&& (forall|j: int|
                        1 <= j < i as int ==> !final(self).is_cut(
                            #[trigger] fed_prefix(old(self).pending(), buf@, j),
                        ))
                    &&& final(self).pending() == Seq::<u8>::empty()
                },
                None => {
                    &&& final(self).pending() == old(self).pending() + buf@
                    &&& (forall|j: int|
                        1 <= j <= buf@.len() ==> !final(self).is_cut(
                            #[trigger] fed_prefix(old(self).pending(), buf@, j),
                        ))
                },
            },
    ;

    /// Drive `chunk_end` over `buf` and hand each completed chunk, a
    /// contiguous slice of `buf`, to `f` in stream order: the chunks are
    /// delimited by a run of boundaries (each the earliest possible), and
    /// what the run leaves uncut stays pending for later calls.
    fn for_each_chunk_end<F: Fn(&[u8])>(&mut self, buf: &[u8], f: F)
        requires
            old(self).wf(),
            forall|ch: &[u8]|
                (exists|a: int, b: int|
                    0 <= a < b <= buf@.len() && ch@ == #[trigger] buf@.subrange(a, b) && (if a
                        == 0 {
                        old(self).is_cut(old(self).pending() + ch@)
                    } else {
                        old(self).is_cut(ch@)
                    })) ==> #[trigger] call_requires(f, (ch,)),
        ensures
            final(self).wf(),
            (forall|p: Seq<u8>| #[trigger] final(self).is_cut(p) == old(self).is_cut(p)),
            exists|cuts: Seq<int>|
                #![trigger run_last(cuts)]
                {
                    &&& (forall|t: int|
                        0 <= t < cuts.len() ==> run_start(cuts, t) < #[trigger] cuts[t]
                            <= buf@.len())
                    &&& (forall|t: int|
                        0 <= t < cuts.len() ==> final(self).is_cut(
                            #[trigger] run_chunk(old(self).pending(), buf@, cuts, t),
                        ))
                    &&& (forall|t: int, j: int|
                        0 <= t < cuts.len() && run_start(cuts, t) < j < cuts[t]
                            ==> !final(self).is_cut(
                            #[trigger] run_prefix(old(self).pending(), buf@, cuts, t, j),
                        ))
                    &&& (forall|j: int|
                        run_last(cuts) < j <= buf@.len() ==> !final(self).is_cut(
                            run_base(old(self).pending(), cuts) + #[trigger] buf@.subrange(
                                run_last(cuts),
                                j,
                            ),
                        ))
                    &&& final(self).pending() == run_base(old(self).pending(), cuts)
                        + buf@.subrange(run_last(cuts), buf@.len() as int)
                },
    {
        let ghost c0 = *self;
        let ghost pend0 = self.pending();
        let n = buf.len();
        let mut start: usize = 0;
        let ghost mut cuts: Seq<int> = Seq::empty();
        loop
            invariant_except_break
                self.pending() == run_base(pend0, cuts),
            invariant
                self.wf(),
                start <= n,
                n == buf@.len(),
                forall|ch: &[u8]|
                    (exists|a: int, b: int|
                        0 <= a < b <= buf@.len() && ch@ == #[trigger] buf@.subrange(a, b) && (if a
                            == 0 {
                            c0.is_cut(pend0 + ch@)
                        } else {
                            c0.is_cut(ch@)
                        })) ==> #[trigger] call_requires(f, (ch,)),
                (forall|p: Seq<u8>| #[trigger] self.is_cut(p) == c0.is_cut(p)),
                start as int == run_last(cuts),
                (forall|t: int| 0 <= t < cuts.len() ==> #[trigger] cuts[t] > 0),
                (forall|t: int|
                    0 <= t < cuts.len() ==> run_start(cuts, t) < #[trigger] cuts[t] <= n as int),
                (forall|t: int|
                    0 <= t < cuts.len() ==> c0.is_cut(#[trigger] run_chunk(pend0, buf@, cuts, t))),
                (forall|t: int, j: int|
                    0 <= t < cuts.len() && run_start(cuts, t) < j < cuts[t] ==> !c0.is_cut(
                        #[trigger] run_prefix(pend0, buf@, cuts, t, j),
                    )),
            ensures
                self.pending() == run_base(pend0, cuts) + buf@.subrange(run_last(cuts), n as int),
                forall|j: int|
                    run_last(cuts) < j <= n as int ==> !c0.is_cut(
                        run_base(pend0, cuts) + #[trigger] buf@.subrange(run_last(cuts), j),
                    ),
            decreases n - start,
        {
            let ghost cuts_old = cuts;
            let ghost s = start as int;
            let ghost base = run_base(pend0, cuts);
            let sub = &buf[start..n];
            let r = self.chunk_end(sub);
            proof {
                assert forall|j: int| 0 <= j <= n as int - s implies crate::fed_prefix(
                    base,
                    sub@,
                    j,
                ) == base + buf@.subrange(s, s + j) by {
                    assert(sub@.subrange(0, j) =~= buf@.subrange(s, s + j));
                }
            }
            match r {
                Some(i) => {
                    let ghost e = s + i as int;
                    proof {
                        cuts = cuts_old.push(e);
                        assert(cuts.last() == e);
                        assert(run_last(cuts) == e);
                        assert forall|t: int| 0 <= t < cuts.len() implies #[trigger] cuts[t]
                            > 0 by {
                            if t < cuts_old.len() {
                                assert(cuts[t] == cuts_old[t]);
                            }
                        }
                        assert forall|t: int|
                            0 <= t < cuts.len() implies run_start(cuts, t) < #[trigger] cuts[t]
                            <= n as int by {
                            if t < cuts_old.len() {
                                assert(cuts[t] == cuts_old[t]);
                            }
                        }
                        assert forall|t: int| 0 <= t < cuts.len() implies c0.is_cut(
                            #[trigger] run_chunk(pend0, buf@, cuts, t),
                        ) by {
                            if t < cuts_old.len() {
                                assert(run_chunk(pend0, buf@, cuts, t) == run_chunk(
                                    pend0,
                                    buf@,
                                    cuts_old,
                                    t,
                                ));
                            } else {
                                assert(run_chunk(pend0, buf@, cuts, t) =~= base + buf@.subrange(
                                    s,
                                    e,
                                ));
                                assert(c0.is_cut(crate::fed_prefix(base, sub@, i as int)));
                            }
                        }
                        assert forall|t: int, j: int|
                            0 <= t < cuts.len() && run_start(cuts, t) < j < cuts[t]
                            implies !c0.is_cut(#[trigger] run_prefix(pend0, buf@, cuts, t, j)) by {
                            if t < cuts_old.len() {
                                assert(run_prefix(pend0, buf@, cuts, t, j) == run_prefix(
                                    pend0,
                                    buf@,
                                    cuts_old,
                                    t,
                                    j,
                                ));
                            } else {
                                assert(run_prefix(pend0, buf@, cuts, t, j) =~= base + buf@.subrange(
                                    s,
                                    j,
                                ));
                                assert(!c0.is_cut(crate::fed_prefix(base, sub@, j - s)));
                            }
                        }
                    }
                    let chunk = &buf[start..start + i];
                    proof {
                        assert(chunk@ == buf@.subrange(s, e));
                        assert(c0.is_cut(run_chunk(pend0, buf@, cuts, cuts.len() - 1)));
                        if s == 0 {
                            assert(cuts_old.len() == 0) by {
                                if cuts_old.len() > 0 {
                                    assert(cuts_old[cuts_old.len() - 1] > 0);
                                }
                            }
                            assert(run_chunk(pend0, buf@, cuts, 0) == pend0 + chunk@);
                            assert(c0.is_cut(pend0 + chunk@));
                        } else {
                            assert(cuts.len() >= 2) by {
                                if cuts_old.len() == 0 {
                                    assert(run_last(cuts_old) == 0);
                                }
                            }
                            assert(cuts[cuts.len() - 2] == s);
                            assert(run_chunk(pend0, buf@, cuts, cuts.len() - 1) == chunk@);
                            assert(c0.is_cut(chunk@));
                        }
                        assert(0 <= s < e <= buf@.len());
                    }
                    f(chunk);
                    start = start + i;
                },
                None => {
                    proof {
                        assert(self.pending() =~= run_base(pend0, cuts) + buf@.subrange(
                            run_last(cuts),
                            n as int,
                        ));
                        assert forall|j: int| run_last(cuts) < j <= n as int implies !c0.is_cut(
                            run_base(pend0, cuts) + #[trigger] buf@.subrange(run_last(cuts), j),
                        ) by {
                            assert(!c0.is_cut(crate::fed_prefix(base, sub@, j - s)));
                        }
                    }
                    break ;
                },
            }
        }
        proof {
            assert(c0 == *old(self));
            assert(pend0 == old(self).pending());
            assert(buf@.len() == n as int);
            assert(run_last(cuts) >= 0 && run_last(cuts) <= n as int);
        }
    }
}

/// A chunker that cuts wherever `engine digest & mask == 0`, for any
/// rolling-hash engine.
pub struct RollingHashChunker<RH: RollingHash> {
    rh: RH,
    mask: RH::Digest,
}

impl<RH: RollingHash> RollingHashChunker<RH> {
    /// The wrapped engine.
    pub closed spec fn engine(&self) -> RH {
        self.rh
    }

    /// The digest mask that selects boundary positions.
    pub closed spec fn mask_spec(&self) -> RH::Digest {
        self.mask
    }
}

impl<RH: RollingHash> RollingHashChunker<RH> where RH::Digest: DigestMask {
    /// Wrap `rh` so that boundaries fall where `digest & mask == 0`.
    pub fn with_mask(rh: RH, mask: RH::Digest) -> (c: Self)
        ensures
            c.engine() == rh,
            c.mask_spec() == mask,
            c.wf() == rh.wf(),
            c.pending() == rh.processed(),
            forall|p: Seq<u8>| #[trigger] c.is_cut(p) == RH::digest_of(p).masked_zero_spec(mask),
    {
        Self { rh, mask }
    }
}

impl<RH: RollingHash> Chunker for RollingHashChunker<RH> where RH::Digest: DigestMask {
    closed spec fn wf(&self) -> bool {
        self.rh.wf()
    }

    closed spec fn pending(&self) -> Seq<u8> {
        self.rh.processed()
    }

    closed spec fn is_cut(&self, p: Seq<u8>) -> bool {
        RH::digest_of(p).masked_zero_spec(self.mask)
    }

    fn chunk_end(&mut self, buf: &[u8]) -> (r: Option<usize>) {
        let mask = self.mask;
        let cond = |d: RH::Digest| -> (b: bool)
            ensures
                b == d.masked_zero_spec(mask),
            { d.masked_zero(mask) };
        let ghost pre = self.rh.processed();
        let r = self.rh.find_chunk_edge_cond(buf, cond);
        proof {
            assert(self.mask == mask);
            assert(forall|p: Seq<u8>| #[trigger] self.is_cut(p) == RH::digest_of(
                p,
            ).masked_zero_spec(mask));
            assert(forall|d: RH::Digest, b: bool|
                #[trigger] call_ensures(cond, (d,), b) ==> b == d.masked_zero_spec(mask));
            assert(old(self).pending() == pre);
            if let Some(i) = r {
                assert(self.is_cut(fed_prefix(pre, buf@, i as int)));
                assert(forall|j: int|
                    1 <= j < i as int ==> !self.is_cut(#[trigger] fed_prefix(pre, buf@, j)));
                assert(self.pending() == Seq::<u8>::empty());
            } else {
                assert(self.pending() == pre + buf@);
            }
        }
        r
    }
}

} // verus!
