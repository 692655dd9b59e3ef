//! What the synchroniser makes of whole streams, however they are chunked.

use crate::frame_catcher::{accumulated, catch_next, completes, completes_after, reads_used};
use crate::marker::{
    frame_of, has_marker, is_payload, lemma_has_marker, lemma_marker_offset,
    lemma_marker_survives_append, lemma_payload_then_marker, marker, marker_at, marker_offset,
    spillover_of,
};
use vstd::prelude::*;
use vstd::seq_lib::lemma_flatten_concat;

verus! {

/// The stream that carries `payloads`: each one followed by the delimiter.
pub open spec fn stream_of(payloads: Seq<Seq<u8>>) -> Seq<u8>
    decreases payloads.len(),
{
    if payloads.len() == 0 {
        Seq::empty()
    } else {
        payloads.first() + marker() + stream_of(payloads.drop_first())
    }
}

/// Where a run of calls stands: the frames delivered so far, the bytes carried
/// into the next call, and the reads not yet made.
pub struct Progress {
    pub frames: Seq<Seq<u8>>,
    pub spillover: Seq<u8>,
    pub unread: Seq<Seq<u8>>,
}

/// `calls` calls in a row, the first seeded with `carried`, each going on
/// where the one before stopped reading. `None` where one of them finds the
/// reads at an end before it sees a delimiter.
pub open spec fn catch_frames(carried: Seq<u8>, reads: Seq<Seq<u8>>, calls: nat) -> Option<
    Progress,
>
    decreases calls,
{
    if calls == 0 {
        Some(Progress { frames: Seq::empty(), spillover: carried, unread: reads })
    } else {
        match catch_frames(carried, reads, (calls - 1) as nat) {
            None => None,
            Some(before) => match catch_next(before.spillover, before.unread) {
                None => None,
                Some((frame, spillover)) => Some(
                    Progress {
                        frames: before.frames.push(frame),
                        spillover,
                        unread: before.unread.skip(reads_used(before.spillover, before.unread)),
                    },
                ),
            },
        }
    }
}

/// The two reads that deliver `stream` cut at offset `at`.
pub open spec fn two_reads(stream: Seq<u8>, at: int) -> Seq<Seq<u8>> {
    seq![stream.take(at), stream.skip(at)]
}

/// What was accumulated after `n` reads, followed by the reads not yet made,
/// is all there is.
pub proof fn lemma_accumulated_rest(carried: Seq<u8>, reads: Seq<Seq<u8>>, n: int)
    requires
        0 <= n <= reads.len(),
    ensures
        accumulated(carried, reads, n) + reads.skip(n).flatten() == carried + reads.flatten(),
{
    assert(reads.take(n) + reads.skip(n) =~= reads);
    lemma_flatten_concat(reads.take(n), reads.skip(n));
    assert(accumulated(carried, reads, n) + reads.skip(n).flatten() =~= carried
        + reads.flatten());
}

proof fn lemma_first_completion(carried: Seq<u8>, reads: Seq<Seq<u8>>, lo: int, n: int)
    requires
        1 <= lo <= n <= reads.len(),
        has_marker(accumulated(carried, reads, n)),
        forall|m: int| 1 <= m < lo ==> !has_marker(#[trigger] accumulated(carried, reads, m)),
    ensures
        completes(carried, reads),
    decreases n - lo,
{
    if has_marker(accumulated(carried, reads, lo)) {
        assert(completes_after(carried, reads, lo));
    } else {
        lemma_first_completion(carried, reads, lo + 1, n);
    }
}

/// A call returns exactly when there is a read to make and the bytes it can
/// get at hold a delimiter. Its frame is then the one before the leftmost
/// delimiter of all those bytes, and its spillover, followed by the reads it
/// did not make, is what follows that delimiter: neither depends on how the
/// bytes were cut into reads.
pub proof fn catch_ignores_chunking(carried: Seq<u8>, reads: Seq<Seq<u8>>)
    ensures
        completes(carried, reads) <==> reads.len() > 0 && has_marker(carried + reads.flatten()),
        completes(carried, reads) ==> {
            let n = reads_used(carried, reads);
            let total = carried + reads.flatten();
            &&& completes_after(carried, reads, n)
            &&& catch_next(carried, reads).unwrap().0 == frame_of(total)
            &&& catch_next(carried, reads).unwrap().1 + reads.skip(n).flatten() == spillover_of(
                total,
            )
        },
{
    let total = carried + reads.flatten();
    if completes(carried, reads) {
        let n = reads_used(carried, reads);
        assert(completes_after(carried, reads, n));
        lemma_accumulated_rest(carried, reads, n);
        lemma_marker_survives_append(accumulated(carried, reads, n), reads.skip(n).flatten());
    }
    if reads.len() > 0 && has_marker(total) {
        assert(reads.take(reads.len() as int) =~= reads);
        lemma_first_completion(carried, reads, 1, reads.len() as int);
    }
}

/// A stream of framed payloads is cut back into those payloads, however it
/// was chunked into reads, splits inside a delimiter included. After `calls`
/// calls that all returned, the frames are the first `calls` payloads and what
/// is carried over, followed by the reads not yet made, is the stream of the
/// other payloads; after the last payload nothing is carried over. The first
/// call always returns; a later one returns if and only if the calls before it
/// returned and left it a read to make.
pub proof fn framing_recovers_payloads(payloads: Seq<Seq<u8>>, reads: Seq<Seq<u8>>, calls: nat)
    requires
        forall|i: int| 0 <= i < payloads.len() ==> is_payload(#[trigger] payloads[i]),
        reads.flatten() == stream_of(payloads),
        calls <= payloads.len(),
    ensures
        match catch_frames(Seq::empty(), reads, calls) {
            Some(now) => {
                &&& now.frames == payloads.take(calls as int)
                &&& now.spillover + now.unread.flatten() == stream_of(payloads.skip(calls as int))
                &&& calls == payloads.len() ==> now.spillover == Seq::<u8>::empty()
            },
            None => calls > 0,
        },
        calls > 0 ==> (catch_frames(Seq::empty(), reads, calls).is_some() <==> {
            &&& catch_frames(Seq::empty(), reads, (calls - 1) as nat).is_some()
            &&& catch_frames(Seq::empty(), reads, (calls - 1) as nat).unwrap().unread.len() > 0
        }),
        calls == 1 ==> catch_frames(Seq::empty(), reads, calls).is_some(),
    decreases calls,
{
    let start = Seq::<u8>::empty();
    if reads.len() == 0 && payloads.len() > 0 {
        assert(reads.flatten().len() == 0);
        assert(stream_of(payloads).len() >= 4);
    }
    if calls == 0 {
        assert(payloads.take(0) =~= Seq::<Seq<u8>>::empty());
        assert(payloads.skip(0) =~= payloads);
        assert(start + reads.flatten() =~= reads.flatten());
        if payloads.len() == 0 {
            assert(start =~= Seq::<u8>::empty());
        }
    } else {
        let k = (calls - 1) as nat;
        framing_recovers_payloads(payloads, reads, k);
        if let Some(before) = catch_frames(start, reads, k) {
            let p = payloads[k as int];
            let rest = stream_of(payloads.skip(calls as int));
            let total = before.spillover + before.unread.flatten();
            assert(payloads.skip(k as int).first() == p);
            assert(payloads.skip(k as int).drop_first() =~= payloads.skip(calls as int));
            assert(total == p + marker() + rest);
            lemma_payload_then_marker(p, rest);
            catch_ignores_chunking(before.spillover, before.unread);
            if let Some(now) = catch_frames(start, reads, calls) {
                assert(now.frames =~= payloads.take(calls as int));
                if calls == payloads.len() {
                    assert(payloads.skip(calls as int) =~= Seq::<Seq<u8>>::empty());
                    assert(now.spillover =~= Seq::<u8>::empty());
                }
            }
        }
    }
}

/// A stream delivered in two reads gives the same frame wherever it is cut in
/// two, and the same bytes behind the delimiter: they are carried over as far
/// as they were read, and the others are still to be read. Without a
/// delimiter in the stream the call does not return.
pub proof fn split_point_is_immaterial(stream: Seq<u8>, at: int)
    requires
        0 <= at <= stream.len(),
    ensures
        !has_marker(stream) ==> catch_next(Seq::empty(), two_reads(stream, at)).is_none(),
        has_marker(stream) ==> {
            let reads = two_reads(stream, at);
            let caught = catch_next(Seq::empty(), reads);
            &&& caught.is_some()
            &&& caught.unwrap().0 == frame_of(stream)
            &&& caught.unwrap().1 + reads.skip(reads_used(Seq::empty(), reads)).flatten()
                == spillover_of(stream)
        },
{
    let reads = two_reads(stream, at);
    lemma_two_reads(stream, at);
    assert(Seq::<u8>::empty() + reads.flatten() =~= stream);
    catch_ignores_chunking(Seq::empty(), reads);
}

/// The two reads of a cut stream deliver the stream.
pub proof fn lemma_two_reads(stream: Seq<u8>, at: int)
    requires
        0 <= at <= stream.len(),
    ensures
        two_reads(stream, at).flatten() == stream,
{
    let reads = two_reads(stream, at);
    assert(reads =~= seq![stream.take(at)].push(stream.skip(at)));
    seq![stream.take(at)].lemma_flatten_one_element();
    seq![stream.take(at)].lemma_flatten_push(stream.skip(at));
    assert(reads.flatten() =~= stream);
}

/// Where a stream ends with its first delimiter, or holds none, a call over
/// it in two reads gives the same frame and the same spillover for every two
/// places at which the stream is cut.
pub proof fn split_invariance(stream: Seq<u8>, at: int, other: int)
    requires
        0 <= at <= stream.len(),
        0 <= other <= stream.len(),
        has_marker(stream) ==> marker_offset(stream) + 4 == stream.len(),
    ensures
        catch_next(Seq::empty(), two_reads(stream, at)) == catch_next(
            Seq::empty(),
            two_reads(stream, other),
        ),
        has_marker(stream) ==> catch_next(Seq::empty(), two_reads(stream, at)) == Some(
            (frame_of(stream), Seq::<u8>::empty()),
        ),
{
    split_point_is_immaterial(stream, at);
    split_point_is_immaterial(stream, other);
    if has_marker(stream) {
        lemma_has_marker(stream);
        assert(spillover_of(stream) =~= Seq::<u8>::empty());
        let a = catch_next(Seq::empty(), two_reads(stream, at)).unwrap();
        let b = catch_next(Seq::empty(), two_reads(stream, other)).unwrap();
        assert(a.1 =~= Seq::<u8>::empty());
        assert(b.1 =~= Seq::<u8>::empty());
    }
}

/// A run of bytes that begins with the delimiter is cut into an empty frame
/// and everything behind the delimiter.
pub proof fn lemma_leading_marker(acc: Seq<u8>)
    requires
        marker_at(acc, 0),
    ensures
        has_marker(acc),
        frame_of(acc) == Seq::<u8>::empty(),
        spillover_of(acc) == acc.skip(4),
{
    lemma_marker_offset(acc, 0);
    assert(frame_of(acc) =~= Seq::<u8>::empty());
}

/// A stream that begins with the delimiter yields an empty frame, in however
/// many reads it comes; what is carried over, followed by the reads not yet
/// made, is everything behind that delimiter.
pub proof fn leading_marker_gives_empty_frame(reads: Seq<Seq<u8>>)
    requires
        reads.len() > 0,
        marker_at(reads.flatten(), 0),
    ensures
        catch_next(Seq::empty(), reads).is_some(),
        catch_next(Seq::empty(), reads).unwrap().0 == Seq::<u8>::empty(),
        catch_next(Seq::empty(), reads).unwrap().1 + reads.skip(
            reads_used(Seq::empty(), reads),
        ).flatten() == reads.flatten().skip(4),
{
    assert(Seq::<u8>::empty() + reads.flatten() =~= reads.flatten());
    lemma_leading_marker(reads.flatten());
    catch_ignores_chunking(Seq::empty(), reads);
}

} // verus!
