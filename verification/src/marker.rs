//! The frame delimiter and where it stands in a run of bytes.

use memmem::{Searcher, TwoWaySearcher};
use vstd::prelude::*;

verus! {

/// The byte that the delimiter repeats.
pub const MARKER_BYTE: u8 = 0x03;

/// Number of bytes in the delimiter.
pub const MARKER_LEN: usize = 4;

/// The delimiter between two frames.
pub open spec fn marker() -> Seq<u8> {
    seq![MARKER_BYTE, MARKER_BYTE, MARKER_BYTE, MARKER_BYTE]
}

/// `needle` stands in `haystack` at offset `at`.
pub open spec fn occurs_at(haystack: Seq<u8>, needle: Seq<u8>, at: int) -> bool {
    &&& 0 <= at
    &&& at + needle.len() <= haystack.len()
    &&& forall|k: int| 0 <= k < needle.len() ==> #[trigger] haystack[at + k] == needle[k]
}

/// `needle` stands somewhere in `haystack`.
pub open spec fn occurs(haystack: Seq<u8>, needle: Seq<u8>) -> bool {
    exists|at: int| occurs_at(haystack, needle, at)
}

/// `at` is the leftmost offset at which `needle` stands in `haystack`.
pub open spec fn first_occurrence_at(haystack: Seq<u8>, needle: Seq<u8>, at: int) -> bool {
    &&& occurs_at(haystack, needle, at)
    &&& forall|j: int| 0 <= j < at ==> !occurs_at(haystack, needle, j)
}

/// The delimiter stands in `s` at offset `at`.
pub open spec fn marker_at(s: Seq<u8>, at: int) -> bool {
    &&& 0 <= at
    &&& at + 4 <= s.len()
    &&& s[at] == MARKER_BYTE
    &&& s[at + 1] == MARKER_BYTE
    &&& s[at + 2] == MARKER_BYTE
    &&& s[at + 3] == MARKER_BYTE
}

/// `s` holds the delimiter somewhere.
pub open spec fn has_marker(s: Seq<u8>) -> bool {
    exists|at: int| marker_at(s, at)
}

/// `at` is the offset of the leftmost delimiter in `s`.
pub open spec fn first_marker_at(s: Seq<u8>, at: int) -> bool {
    &&& marker_at(s, at)
    &&& forall|j: int| 0 <= j < at ==> !marker_at(s, j)
}

/// Offset of the leftmost delimiter in `s`; meaningful where `has_marker(s)`.
pub open spec fn marker_offset(s: Seq<u8>) -> int {
    choose|at: int| first_marker_at(s, at)
}

/// The bytes of `acc` before its leftmost delimiter: the frame.
pub open spec fn frame_of(acc: Seq<u8>) -> Seq<u8> {
    acc.take(marker_offset(acc))
}

/// The bytes of `acc` after its leftmost delimiter: what is carried over.
pub open spec fn spillover_of(acc: Seq<u8>) -> Seq<u8> {
    acc.skip(marker_offset(acc) + 4)
}

/// A byte run that can be framed: it holds no delimiter and does not end in
/// the delimiter's byte, so that a delimiter put behind it is found where it
/// was put.
pub open spec fn is_payload(p: Seq<u8>) -> bool {
    &&& !has_marker(p)
    &&& p.len() > 0 ==> p.last() != MARKER_BYTE
}

/// Standing as a four-byte needle and standing as the delimiter are the same thing.
pub proof fn lemma_marker_occurs(s: Seq<u8>, at: int)
    ensures
        occurs_at(s, marker(), at) <==> marker_at(s, at),
{
    if occurs_at(s, marker(), at) {
        assert(s[at + 0] == marker()[0]);
        assert(s[at + 1] == marker()[1]);
        assert(s[at + 2] == marker()[2]);
        assert(s[at + 3] == marker()[3]);
    }
}

/// Below any delimiter there is a leftmost one.
pub proof fn lemma_leftmost_exists(s: Seq<u8>, at: int)
    requires
        marker_at(s, at),
    ensures
        exists|j: int| 0 <= j <= at && first_marker_at(s, j),
    decreases at,
{
    if exists|j: int| 0 <= j < at && marker_at(s, j) {
        let j = choose|j: int| 0 <= j < at && marker_at(s, j);
        lemma_leftmost_exists(s, j);
    } else {
        assert(first_marker_at(s, at));
    }
}

/// The leftmost delimiter is unique, and `marker_offset` names it.
pub proof fn lemma_marker_offset(s: Seq<u8>, at: int)
    requires
        first_marker_at(s, at),
    ensures
        has_marker(s),
        marker_offset(s) == at,
{
    let chosen = marker_offset(s);
    assert(first_marker_at(s, chosen));
    if chosen < at {
        assert(!marker_at(s, chosen));
    }
    if at < chosen {
        assert(!marker_at(s, at));
    }
}

/// Where `s` holds a delimiter, `marker_offset` is the leftmost one.
pub proof fn lemma_has_marker(s: Seq<u8>)
    requires
        has_marker(s),
    ensures
        first_marker_at(s, marker_offset(s)),
{
    let at = choose|at: int| marker_at(s, at);
    lemma_leftmost_exists(s, at);
}

/// A delimiter in a run of bytes is still its leftmost one when more bytes
/// follow: frame and offset stay, and the new bytes join the spillover.
pub proof fn lemma_marker_survives_append(a: Seq<u8>, b: Seq<u8>)
    requires
        has_marker(a),
    ensures
        has_marker(a + b),
        marker_offset(a + b) == marker_offset(a),
        frame_of(a + b) == frame_of(a),
        spillover_of(a + b) == spillover_of(a) + b,
{
    lemma_has_marker(a);
    let at = marker_offset(a);
    assert(marker_at(a + b, at));
    assert forall|j: int| 0 <= j < at implies !marker_at(a + b, j) by {
        assert(!marker_at(a, j));
    }
    lemma_marker_offset(a + b, at);
    assert(frame_of(a + b) =~= frame_of(a));
    assert(spillover_of(a + b) =~= spillover_of(a) + b);
}

/// Cutting at the leftmost delimiter loses nothing: frame, delimiter and
/// spillover, in this order, are the bytes that were cut. The frame holds no
/// delimiter and does not end in the delimiter's byte.
pub proof fn lemma_split_reassembles(acc: Seq<u8>)
    requires
        has_marker(acc),
    ensures
        frame_of(acc) + marker() + spillover_of(acc) == acc,
        is_payload(frame_of(acc)),
{
    lemma_has_marker(acc);
    let at = marker_offset(acc);
    let frame = frame_of(acc);
    assert(frame + marker() + spillover_of(acc) =~= acc);
    assert forall|j: int| !marker_at(frame, j) by {
        if marker_at(frame, j) {
            assert(marker_at(acc, j));
        }
    }
    if frame.len() > 0 && frame.last() == MARKER_BYTE {
        assert(marker_at(acc, at - 1));
    }
}

/// A payload followed by the delimiter is cut exactly behind the payload,
/// whatever comes after.
pub proof fn lemma_payload_then_marker(p: Seq<u8>, rest: Seq<u8>)
    requires
        is_payload(p),
    ensures
        first_marker_at(p + marker() + rest, p.len() as int),
        has_marker(p + marker() + rest),
        frame_of(p + marker() + rest) == p,
        spillover_of(p + marker() + rest) == rest,
{
    let s = p + marker() + rest;
    let n = p.len() as int;
    assert(s[n] == marker()[0]);
    assert(s[n + 1] == marker()[1]);
    assert(s[n + 2] == marker()[2]);
    assert(s[n + 3] == marker()[3]);
    assert forall|j: int| 0 <= j < n implies !marker_at(s, j) by {
        if marker_at(s, j) {
            if j + 4 <= n {
                assert(marker_at(p, j));
            } else {
                assert(s[n - 1] == p.last());
            }
        }
    }
    lemma_marker_offset(s, n);
    assert(frame_of(s) =~= p);
    assert(spillover_of(s) =~= rest);
}

/// The payloads are exactly the byte runs that come back as a frame when the
/// delimiter is put behind them.
pub proof fn payload_characterisation(p: Seq<u8>)
    ensures
        is_payload(p) <==> first_marker_at(p + marker(), p.len() as int),
{
    let s = p + marker();
    let n = p.len() as int;
    if is_payload(p) {
        lemma_payload_then_marker(p, Seq::empty());
        assert(p + marker() + Seq::<u8>::empty() =~= s);
    }
    if first_marker_at(s, n) {
        assert forall|j: int| !marker_at(p, j) by {
            if marker_at(p, j) {
                assert(marker_at(s, j));
            }
        }
        if n > 0 && p.last() == MARKER_BYTE {
            assert(s[n - 1] == p.last());
            assert(s[n] == marker()[0]);
            assert(s[n + 1] == marker()[1]);
            assert(s[n + 2] == marker()[2]);
            assert(marker_at(s, n - 1));
        }
    }
}

/// Substring search of the `memmem` crate: `TwoWaySearcher::new` on `needle`,
/// then `Searcher::search_in` on `haystack`.
///
/// Trusted: the search reports the leftmost offset at which the needle stands
/// in the haystack, and reports nothing exactly when the needle stands nowhere
/// in it.
#[verifier::external_body]
fn search_in(needle: &[u8], haystack: &[u8]) -> (found: Option<usize>)
    ensures
        match found {
            Some(at) => first_occurrence_at(haystack@, needle@, at as int),
            None => !occurs(haystack@, needle@),
        },
{
    TwoWaySearcher::new(needle).search_in(haystack)
}

/// Offset of the leftmost delimiter in `buf`, if it holds one.
pub fn find_marker(buf: &[u8]) -> (found: Option<usize>)
    ensures
        match found {
            Some(at) => first_marker_at(buf@, at as int),
            None => !has_marker(buf@),
        },
{
    let needle: [u8; 4] = [MARKER_BYTE; 4];
    assert(needle@ =~= marker());
    let found = search_in(&needle, buf);
    proof {
        assert forall|j: int| occurs_at(buf@, marker(), j) <==> marker_at(buf@, j) by {
            lemma_marker_occurs(buf@, j);
        }
    }
    found
}

/// Cuts `acc` at its leftmost delimiter. With a delimiter, the first part is
/// the frame before it and the second what follows it: the delimiter itself
/// is in neither, and no other byte is lost. Without one, nothing is cut off
/// and the second part is `acc` itself.
pub fn split_at_marker(acc: Vec<u8>) -> (cut: (Option<Vec<u8>>, Vec<u8>))
    ensures
        has_marker(acc@) ==> {
            &&& cut.0.is_some()
            &&& cut.0.unwrap()@ == frame_of(acc@)
            &&& cut.1@ == spillover_of(acc@)
            &&& cut.0.unwrap()@ + marker() + cut.1@ == acc@
        },
        !has_marker(acc@) ==> cut.0.is_none() && cut.1@ == acc@,
{
    let mut front = acc;
    match find_marker(front.as_slice()) {
        Some(at) => {
            proof {
                lemma_marker_offset(front@, at as int);
                lemma_split_reassembles(front@);
                assert(at + 4 <= front.len());
            }
            let back = front.split_off(at + MARKER_LEN);
            front.truncate(at);
            assert(front@ =~= frame_of(acc@));
            (Some(front), back)
        },
        None => (None, front),
    }
}

} // verus!
