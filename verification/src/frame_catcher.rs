//! The frame synchroniser: cuts a chunked byte stream at the delimiter.
//!
//! A synchroniser owns the bytes that were read but belong to no delivered
//! frame yet. Each read appends to them; as soon as they hold a delimiter, the
//! bytes before it leave as a frame and the bytes after it stay behind.

use crate::marker::{frame_of, has_marker, marker, spillover_of, split_at_marker};
use vstd::prelude::*;

verus! {

/// Largest number of bytes asked of the link in one read.
pub const READ_BUF_SIZE: usize = 0x200;

/// The reads of a source, each as the bytes it returned.
pub open spec fn reads_view(reads: Seq<Vec<u8>>) -> Seq<Seq<u8>> {
    reads.map_values(|r: Vec<u8>| r@)
}

/// The bytes that a call holds after `n` reads: what it was seeded with,
/// followed by what those reads returned.
pub open spec fn accumulated(carried: Seq<u8>, reads: Seq<Seq<u8>>, n: int) -> Seq<u8> {
    carried + reads.take(n).flatten()
}

/// A call seeded with `carried` returns right after its `n`-th read: that read
/// is the first after which the accumulated bytes hold a delimiter.
pub open spec fn completes_after(carried: Seq<u8>, reads: Seq<Seq<u8>>, n: int) -> bool {
    &&& 1 <= n <= reads.len()
    &&& has_marker(accumulated(carried, reads, n))
    &&& forall|m: int| 1 <= m < n ==> !has_marker(#[trigger] accumulated(carried, reads, m))
}

/// A call seeded with `carried` returns while `reads` last.
pub open spec fn completes(carried: Seq<u8>, reads: Seq<Seq<u8>>) -> bool {
    exists|n: int| completes_after(carried, reads, n)
}

/// Number of reads that a returning call makes.
pub open spec fn reads_used(carried: Seq<u8>, reads: Seq<Seq<u8>>) -> int {
    choose|n: int| completes_after(carried, reads, n)
}

/// Frame and spillover of a call seeded with `carried` over `reads`, where it
/// returns.
pub open spec fn catch_next(carried: Seq<u8>, reads: Seq<Seq<u8>>) -> Option<(Seq<u8>, Seq<u8>)> {
    if completes(carried, reads) {
        let acc = accumulated(carried, reads, reads_used(carried, reads));
        Some((frame_of(acc), spillover_of(acc)))
    } else {
        None
    }
}

/// One more read appends its bytes to what was accumulated.
pub proof fn lemma_accumulated_step(carried: Seq<u8>, reads: Seq<Seq<u8>>, n: int)
    requires
        0 <= n < reads.len(),
    ensures
        accumulated(carried, reads, n + 1) == accumulated(carried, reads, n) + reads[n],
        accumulated(carried, reads, 0) == carried,
{
    assert(reads.take(n + 1) =~= reads.take(n).push(reads[n]));
    reads.take(n).lemma_flatten_push(reads[n]);
    assert(accumulated(carried, reads, n + 1) =~= accumulated(carried, reads, n) + reads[n]);
    assert(reads.take(0).flatten() =~= Seq::<u8>::empty());
    assert(accumulated(carried, reads, 0) =~= carried);
}

/// The read after which a call returns is unique.
pub proof fn lemma_reads_used(carried: Seq<u8>, reads: Seq<Seq<u8>>, n: int)
    requires
        completes_after(carried, reads, n),
    ensures
        completes(carried, reads),
        reads_used(carried, reads) == n,
{
    let chosen = reads_used(carried, reads);
    assert(completes_after(carried, reads, chosen));
    if chosen < n {
        assert(!has_marker(accumulated(carried, reads, chosen)));
    }
    if n < chosen {
        assert(!has_marker(accumulated(carried, reads, n)));
    }
}

/// The state of the synchroniser between two reads.
pub struct FrameCatcher {
    frame_buf: Vec<u8>,
}

impl View for FrameCatcher {
    type V = Seq<u8>;

    /// The bytes read so far that belong to no delivered frame.
    closed spec fn view(&self) -> Seq<u8> {
        self.frame_buf@
    }
}

impl FrameCatcher {
    /// A synchroniser that has read nothing.
    pub fn new() -> (catcher: Self)
        ensures
            catcher@ == Seq::<u8>::empty(),
    {
        FrameCatcher { frame_buf: Vec::new() }
    }

    /// The bytes read so far that belong to no delivered frame.
    pub fn carried(&self) -> (bytes: &[u8])
        ensures
            bytes@ == self@,
    {
        self.frame_buf.as_slice()
    }

    /// Number of bytes to ask of the link when it reports `queued` bytes
    /// waiting: nothing while the queue is empty, one full buffer otherwise.
    pub fn read_len(queued: usize) -> (len: usize)
        ensures
            len == if queued == 0 { 0 } else { READ_BUF_SIZE },
    {
        if queued == 0 {
            0
        } else {
            READ_BUF_SIZE
        }
    }

    /// Takes in the bytes of one read. Where the accumulated bytes now hold a
    /// delimiter, the frame before the leftmost one is handed out and what
    /// follows it is kept: frame, delimiter and kept bytes are the accumulated
    /// bytes. Otherwise everything is kept and another read is due.
    pub fn push_chunk(&mut self, chunk: &[u8]) -> (frame: Option<Vec<u8>>)
        ensures
            has_marker(old(self)@ + chunk@) ==> {
                &&& frame.is_some()
                &&& frame.unwrap()@ == frame_of(old(self)@ + chunk@)
                &&& final(self)@ == spillover_of(old(self)@ + chunk@)
                &&& frame.unwrap()@ + marker() + final(self)@ == old(self)@ + chunk@
            },
            !has_marker(old(self)@ + chunk@) ==> frame.is_none() && final(self)@ == old(self)@
                + chunk@,
    {
        let mut acc: Vec<u8> = Vec::new();
        core::mem::swap(&mut acc, &mut self.frame_buf);
        acc.extend_from_slice(chunk);
        assert(acc@ =~= old(self)@ + chunk@);
        let (frame, rest) = split_at_marker(acc);
        self.frame_buf = rest;
        frame
    }

    /// One call of the synchroniser over recorded reads, seeded with
    /// `existing_buf`. Each read is appended and the whole is searched anew.
    /// Gives the frame, the bytes to carry over and the number of reads made;
    /// where the reads end before a delimiter shows, no frame, all the bytes
    /// accumulated, and the number of reads there were.
    pub fn catch_next_end_bytes(existing_buf: Vec<u8>, reads: &[Vec<u8>]) -> (caught: (
        Option<Vec<u8>>,
        Vec<u8>,
        usize,
    ))
        ensures
            match catch_next(existing_buf@, reads_view(reads@)) {
                Some((frame, spillover)) => {
                    &&& caught.0.is_some()
                    &&& caught.0.unwrap()@ == frame
                    &&& caught.1@ == spillover
                    &&& caught.2 == reads_used(existing_buf@, reads_view(reads@))
                },
                None => {
                    &&& caught.0.is_none()
                    &&& caught.1@ == existing_buf@ + reads_view(reads@).flatten()
                    &&& caught.2 == reads.len()
                },
            },
    {
        let ghost carried = existing_buf@;
        let ghost rv = reads_view(reads@);
        let mut acc = existing_buf;
        let mut i: usize = 0;
        proof {
            assert(rv.take(0).flatten() =~= Seq::<u8>::empty());
            assert(accumulated(carried, rv, 0) =~= carried);
        }
        while i < reads.len()
            invariant
                i <= reads.len(),
                rv == reads_view(reads@),
                carried == existing_buf@,
                acc@ == accumulated(carried, rv, i as int),
                forall|m: int| 1 <= m <= i ==> !has_marker(#[trigger] accumulated(carried, rv, m)),
            decreases reads.len() - i,
        {
            acc.extend_from_slice(reads[i].as_slice());
            proof {
                lemma_accumulated_step(carried, rv, i as int);
                assert(acc@ =~= accumulated(carried, rv, i + 1));
            }
            let (frame, rest) = split_at_marker(acc);
            i = i + 1;
            if frame.is_some() {
                proof {
                    assert(has_marker(accumulated(carried, rv, i as int)));
                    assert(completes_after(carried, rv, i as int));
                    lemma_reads_used(carried, rv, i as int);
                }
                return (frame, rest, i);
            }
            acc = rest;
        }
        proof {
            if completes(carried, rv) {
                let n = reads_used(carried, rv);
                assert(completes_after(carried, rv, n));
                assert(!has_marker(accumulated(carried, rv, n)));
            }
            assert(rv.take(rv.len() as int) =~= rv);
        }
        (None, acc, i)
    }

    /// Catches the next frame from recorded reads, of which it makes as many as
    /// it needs, and says how many that were. Where the reads end first, there
    /// is no frame and every byte read is kept for a later call.
    pub fn catch_single_frame(&mut self, reads: &[Vec<u8>]) -> (caught: (Option<Vec<u8>>, usize))
        ensures
            match catch_next(old(self)@, reads_view(reads@)) {
                Some((frame, spillover)) => {
                    &&& caught.0.is_some()
                    &&& caught.0.unwrap()@ == frame
                    &&& final(self)@ == spillover
                    &&& caught.1 == reads_used(old(self)@, reads_view(reads@))
                },
                None => {
                    &&& caught.0.is_none()
                    &&& final(self)@ == old(self)@ + reads_view(reads@).flatten()
                    &&& caught.1 == reads.len()
                },
            },
    {
        let mut existing_buf: Vec<u8> = Vec::new();
        core::mem::swap(&mut existing_buf, &mut self.frame_buf);
        let (front, back, used) = Self::catch_next_end_bytes(existing_buf, reads);
        self.frame_buf = back;
        (front, used)
    }
}

} // verus!
