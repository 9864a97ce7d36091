//! The laws that hold across whole call sequences, stated over the same
//! spec-level models that the contracts of `readable` and `writable` use.
//!
//! The receive direction: `readable` guarantees that delivered bytes extend
//! the in-progress prefix exactly (`partial` becomes `partial + chunk`) and
//! that a frame is handed out precisely when that prefix is complete. The
//! lemmas here lift that single-step contract to arbitrary chunkings of a
//! frame's bytes.
//!
//! The send direction: `send` guarantees `remaining` grows by the frame's
//! bytes, `pending_bytes` hands out the head of `remaining`, and `writable`
//! guarantees that accepting `n` bytes turns `remaining` into
//! `remaining.skip(n)`. The lemmas here lift that to whole drain schedules:
//! whatever counts the socket accepts, the wire sees the queued frames'
//! bytes in enqueue order, none repeated, none skipped.

use vstd::prelude::*;
use vstd::seq_lib::lemma_flatten_concat;

use crate::frame::{declared_len, frame_done, HEADER_SIZE};

verus! {

/// No proper prefix of a complete frame is itself a complete frame: both
/// declare the same total length in the same header, and only the full
/// frame reaches it.
pub proof fn lemma_prefix_not_done(s: Seq<u8>, n: int)
    requires
        frame_done(s),
        0 <= n < s.len(),
    ensures
        !frame_done(s.take(n)),
{
    if n >= HEADER_SIZE as int {
        assert(s.take(n)[0] == s[0]);
        assert(s.take(n)[1] == s[1]);
        assert(s.take(n)[2] == s[2]);
        assert(s.take(n)[3] == s[3]);
        assert(declared_len(s.take(n)) == declared_len(s));
    }
}

/// Reassembly across arbitrary chunking: feed a complete frame's bytes to
/// `readable` split into any sequence of non-empty chunks. After each chunk
/// the received prefix is the concatenation of the chunks so far, so no
/// chunk before the last completes a frame (`readable` keeps answering
/// "no frame yet"), and the last chunk completes exactly the original
/// bytes, unmodified.
pub proof fn lemma_reassembly(cs: Seq<Seq<u8>>, s: Seq<u8>)
    requires
        cs.len() > 0,
        cs.flatten() == s,
        forall|i: int| 0 <= i < cs.len() ==> (#[trigger] cs[i]).len() > 0,
        frame_done(s),
    ensures
        forall|k: int| 0 < k < cs.len() ==> !frame_done(#[trigger] cs.take(k).flatten()),
        cs.take(cs.len() - 1).flatten() + cs[cs.len() - 1] == s,
{
    assert forall|k: int| 0 < k < cs.len() implies !frame_done(
        #[trigger] cs.take(k).flatten(),
    ) by {
        lemma_chunk_prefix(cs, s, k);
        lemma_prefix_not_done(s, cs.take(k).flatten().len() as int);
        assert(cs.take(k).flatten() == s.take(cs.take(k).flatten().len() as int));
    }
    lemma_chunk_prefix(cs, s, cs.len() - 1);
    assert(cs.skip(cs.len() - 1) =~= seq![cs[cs.len() - 1]]);
    cs.skip(cs.len() - 1).lemma_flatten_one_element();
    lemma_flatten_concat(cs.take(cs.len() - 1), cs.skip(cs.len() - 1));
    assert(cs.take(cs.len() - 1) + cs.skip(cs.len() - 1) =~= cs);
    assert(cs.take(cs.len() - 1).flatten() + cs[cs.len() - 1] == s);
}

/// The concatenation of the first `k` chunks is a proper prefix of the
/// whole: later chunks are non-empty, so bytes are still missing.
proof fn lemma_chunk_prefix(cs: Seq<Seq<u8>>, s: Seq<u8>, k: int)
    requires
        cs.flatten() == s,
        forall|i: int| 0 <= i < cs.len() ==> (#[trigger] cs[i]).len() > 0,
        0 <= k < cs.len(),
    ensures
        cs.take(k).flatten().len() < s.len(),
        cs.take(k).flatten() == s.take(cs.take(k).flatten().len() as int),
{
    lemma_flatten_concat(cs.take(k), cs.skip(k));
    assert(cs.take(k) + cs.skip(k) =~= cs);
    let rest = cs.skip(k);
    assert(rest.len() > 0);
    assert(rest.flatten() == rest[0] + rest.drop_first().flatten());
    assert(rest[0] == cs[k]);
    assert(rest.flatten().len() > 0);
    assert(s == cs.take(k).flatten() + rest.flatten());
    assert(cs.take(k).flatten() =~= s.take(cs.take(k).flatten().len() as int));
}

/// One accepted count applied to the send queue model: the queued frames'
/// bytes in enqueue order, the count of head bytes already accepted, and
/// how many bytes the socket took this attempt. These mirror, case for
/// case, what `writable` ensures of `queue_model` and `head_sent`.
pub open spec fn write_step_ok(q: Seq<Seq<u8>>, pos: int, n: int) -> bool {
    &&& q.len() > 0
    &&& 0 <= pos
    &&& 0 < n <= q[0].len() - pos
}

/// The bytes this attempt put on the wire: the accepted slice of the head
/// frame, starting at the recorded position.
pub open spec fn write_emitted(q: Seq<Seq<u8>>, pos: int, n: int) -> Seq<u8> {
    q[0].subrange(pos, pos + n)
}

/// The queue model and position after the attempt: the head is dropped the
/// moment its last byte is accepted, otherwise the position advances.
pub open spec fn write_next(q: Seq<Seq<u8>>, pos: int, n: int) -> (Seq<Seq<u8>>, int) {
    if pos + n == q[0].len() {
        (q.drop_first(), 0)
    } else {
        (q, pos + n)
    }
}

/// A whole drain schedule is feasible: each accepted count is positive and
/// within what the head frame still owes at that point.
pub open spec fn write_run_ok(q: Seq<Seq<u8>>, pos: int, counts: Seq<int>) -> bool
    decreases counts.len(),
{
    counts.len() == 0 || {
        &&& write_step_ok(q, pos, counts[0])
        &&& {
            let st = write_next(q, pos, counts[0]);
            write_run_ok(st.0, st.1, counts.drop_first())
        }
    }
}

/// Everything the schedule puts on the wire, in order.
pub open spec fn wire_of(q: Seq<Seq<u8>>, pos: int, counts: Seq<int>) -> Seq<u8>
    decreases counts.len(),
{
    if counts.len() == 0 {
        Seq::empty()
    } else {
        write_emitted(q, pos, counts[0]) + {
            let st = write_next(q, pos, counts[0]);
            wire_of(st.0, st.1, counts.drop_first())
        }
    }
}

/// The total count a schedule accepts.
pub open spec fn total_of(counts: Seq<int>) -> int
    decreases counts.len(),
{
    if counts.len() == 0 {
        0
    } else {
        counts[0] + total_of(counts.drop_first())
    }
}

/// Wire conservation: however the socket slices its acceptances, the bytes
/// put on the wire are exactly the leading bytes still owed — the
/// concatenation of the queued frames in enqueue order, from the recorded
/// position on — with no byte repeated and none skipped.
pub proof fn lemma_wire_in_order(q: Seq<Seq<u8>>, pos: int, counts: Seq<int>)
    requires
        0 <= pos,
        q.len() > 0 ==> pos <= q[0].len(),
        q.len() == 0 ==> pos == 0,
        write_run_ok(q, pos, counts),
    ensures
        0 <= total_of(counts) <= q.flatten().len() - pos,
        wire_of(q, pos, counts) == q.flatten().skip(pos).take(total_of(counts)),
    decreases counts.len(),
{
    let rem = q.flatten().skip(pos);
    if counts.len() == 0 {
        assert(q.flatten().len() >= pos) by {
            if q.len() > 0 {
                assert(q.flatten() == q[0] + q.drop_first().flatten());
            }
        }
        assert(wire_of(q, pos, counts) =~= rem.take(0));
    } else {
        let n = counts[0];
        assert(q.flatten() == q[0] + q.drop_first().flatten());
        assert(write_emitted(q, pos, n) =~= rem.take(n));
        let st = write_next(q, pos, n);
        lemma_wire_in_order(st.0, st.1, counts.drop_first());
        assert(st.0.flatten().skip(st.1) =~= rem.skip(n)) by {
            if pos + n == q[0].len() {
                assert(st.0 == q.drop_first());
            }
        }
        let rest = counts.drop_first();
        assert(wire_of(q, pos, counts) == rem.take(n) + rem.skip(n).take(total_of(rest)));
        assert(total_of(rest) <= rem.skip(n).len());
        let t = total_of(rest);
        assert(n <= rem.len());
        assert(rem.take(n).len() == n);
        assert(rem.skip(n).take(t).len() == t);
        assert(rem.take(n + t).len() == n + t);
        assert forall|i: int| 0 <= i < n + t implies (rem.take(n) + rem.skip(n).take(t))[i]
            == rem.take(n + t)[i] by {
            if i < n {
                assert((rem.take(n) + rem.skip(n).take(t))[i] == rem[i]);
            } else {
                assert((rem.take(n) + rem.skip(n).take(t))[i] == rem.skip(n).take(t)[i - n]);
                assert(rem.skip(n).take(t)[i - n] == rem[i]);
            }
        }
        assert(rem.take(n) + rem.skip(n).take(t) =~= rem.take(n + t));
    }
}

/// Draining the queue completely puts exactly the concatenation of the
/// queued frames' bytes on the wire, in enqueue order.
pub proof fn lemma_full_drain_is_concatenation(q: Seq<Seq<u8>>, counts: Seq<int>)
    requires
        write_run_ok(q, 0, counts),
        total_of(counts) == q.flatten().len(),
    ensures
        wire_of(q, 0, counts) == q.flatten(),
{
    lemma_wire_in_order(q, 0, counts);
    assert(q.flatten().skip(0).take(q.flatten().len() as int) =~= q.flatten());
}

} // verus!
