//! The two connection directions, one object each.
//!
//! [`IncomingConnection`] reassembles length-prefixed frames from the chunks
//! a non-blocking socket delivers; [`OutgoingConnection`] drains a
//! first-in-first-out queue of complete frames onto the socket, resuming a
//! partially written head frame at exactly its first unsent byte.
//!
//! Neither object performs I/O itself: the embedding program makes each
//! single non-blocking read or write attempt and hands the observed outcome
//! ([`ReadOutcome`], [`WriteOutcome`]) to `readable` / `writable`, which hold
//! the whole decision logic.

use std::collections::VecDeque;
use vstd::prelude::*;

use crate::frame::{declared_len, frame_done, Frame, HEADER_SIZE};

verus! {

/// The peer's address, as plain values: the IP octets (four for IPv4,
/// sixteen for IPv6) and the port.
#[derive(Debug)]
pub struct PeerAddr {
    pub octets: Vec<u8>,
    pub port: u16,
}

/// A hard I/O failure reported by the socket, carried as the operating
/// system's error code.
#[derive(Clone, Copy, PartialEq, Eq, Structural, Debug)]
pub struct TransportError {
    pub code: i32,
}

/// What one non-blocking read attempt observed.
pub enum ReadOutcome {
    /// The socket has nothing to give right now: a would-block signal or a
    /// read of zero bytes.
    WouldBlock,
    /// The socket delivered these bytes.
    Bytes(Vec<u8>),
    /// The socket reported a hard I/O error.
    Failed(TransportError),
}

/// What one non-blocking write attempt observed.
pub enum WriteOutcome {
    /// The socket accepted nothing right now.
    WouldBlock,
    /// The socket accepted this many leading bytes of the buffer it was
    /// handed.
    Wrote(usize),
    /// The socket reported a hard I/O error.
    Failed(TransportError),
}

/// How many bytes a receiving connection whose frame bytes so far are `p`
/// is ready to accept next: the rest of the header while the header is
/// incomplete, then the rest of the declared total.
pub open spec fn capacity_of(p: Seq<u8>) -> int {
    if p.len() < HEADER_SIZE as nat {
        HEADER_SIZE as int - p.len()
    } else {
        declared_len(p) - p.len()
    }
}

/// The receiving direction: owns one in-progress frame and the count of its
/// bytes already received.
pub struct IncomingConnection {
    address: PeerAddr,
    raw: Frame,
    position: usize,
}

impl IncomingConnection {
    /// The bytes of the in-progress frame received so far.
    pub closed spec fn partial(&self) -> Seq<u8> {
        self.raw@.take(self.position as int)
    }

    /// The peer address the connection was created with.
    pub closed spec fn peer(&self) -> PeerAddr {
        self.address
    }

    /// Internal invariant: the in-progress buffer holds either the bare
    /// header slot or the full declared length, the position lies strictly
    /// inside it (a finished frame is handed off the instant it completes),
    /// and the payload region exists only once the full header has arrived.
    pub closed spec fn wf(&self) -> bool {
        &&& self.raw.wf()
        &&& (self.position as nat) < self.raw@.len()
        &&& (self.raw@.len() > HEADER_SIZE as nat ==> self.position >= HEADER_SIZE)
    }

    /// A connection starts with a fresh, empty in-progress frame.
    pub fn new(address: PeerAddr) -> (c: IncomingConnection)
        ensures
            c.wf(),
            c.partial() == Seq::<u8>::empty(),
            c.peer() == address,
    {
        let c = IncomingConnection { address, raw: Frame::begin(), position: 0 };
        proof {
            assert(c.partial() =~= Seq::<u8>::empty());
        }
        c
    }

    /// Read-only accessor, no side effects.
    pub fn address(&self) -> (r: &PeerAddr)
        ensures
            *r == self.peer(),
    {
        &self.address
    }

    /// How many bytes the connection is ready to accept in the next read
    /// attempt; always at least one.
    pub fn read_capacity(&self) -> (r: usize)
        requires
            self.wf(),
        ensures
            r as int == capacity_of(self.partial()),
            r >= 1,
    {
        proof {
            self.lemma_capacity();
        }
        self.raw.actual_length() - self.position
    }

    /// The stored buffer's free space is exactly the capacity the received
    /// prefix calls for.
    proof fn lemma_capacity(&self)
        requires
            self.wf(),
        ensures
            capacity_of(self.partial()) == self.raw@.len() - self.position,
    {
        if self.position >= HEADER_SIZE {
            assert(self.partial()[0] == self.raw@[0]);
            assert(self.partial()[1] == self.raw@[1]);
            assert(self.partial()[2] == self.raw@[2]);
            assert(self.partial()[3] == self.raw@[3]);
            assert(declared_len(self.partial()) == declared_len(self.raw@));
        }
    }

    /// React to the outcome of one non-blocking read attempt.
    ///
    /// Delivered bytes extend the in-progress frame at the recorded
    /// position; the instant the frame's last declared byte arrives, the
    /// frame is handed out unmodified and a fresh one takes its place, the
    /// position reset to zero. A would-block outcome (or a read of zero
    /// bytes) asks the caller to await the next readiness signal and leaves
    /// the connection untouched; a hard I/O error is surfaced unchanged,
    /// the connection state intact for the driver to tear down.
    pub fn readable(&mut self, outcome: ReadOutcome) -> (r: Result<Option<Frame>, TransportError>)
        requires
            old(self).wf(),
            outcome matches ReadOutcome::Bytes(b) ==> b@.len() <= capacity_of(
                old(self).partial(),
            ),
        ensures
            final(self).wf(),
            final(self).peer() == old(self).peer(),
            match outcome {
                ReadOutcome::WouldBlock => {
                    &&& r == Ok::<Option<Frame>, TransportError>(None)
                    &&& *final(self) == *old(self)
                },
                ReadOutcome::Failed(e) => {
                    &&& r == Err::<Option<Frame>, TransportError>(e)
                    &&& *final(self) == *old(self)
                },
                ReadOutcome::Bytes(b) => {
                    if b.len() == 0 {
                        &&& r == Ok::<Option<Frame>, TransportError>(None)
                        &&& *final(self) == *old(self)
                    } else if frame_done(old(self).partial() + b@) {
                        &&& (r matches Ok(f) && f matches Some(f) && f@ == old(self).partial()
                            + b@)
                        &&& final(self).partial() == Seq::<u8>::empty()
                    } else {
                        &&& r == Ok::<Option<Frame>, TransportError>(None)
                        &&& final(self).partial() == old(self).partial() + b@
                    }
                },
            },
    {
        match outcome {
            ReadOutcome::WouldBlock => Ok(None),
            ReadOutcome::Failed(e) => Err(e),
            ReadOutcome::Bytes(b) => {
                if b.len() == 0 {
                    return Ok(None);
                }
                proof {
                    self.lemma_capacity();
                }
                let ghost prior = self.partial();
                let n = b.len();
                self.raw.fill(self.position, &b);
                self.position = self.position + n;
                proof {
                    assert(self.partial() =~= prior + b@);
                    if self.position >= HEADER_SIZE {
                        assert(self.partial()[0] == self.raw@[0]);
                        assert(self.partial()[1] == self.raw@[1]);
                        assert(self.partial()[2] == self.raw@[2]);
                        assert(self.partial()[3] == self.raw@[3]);
                        assert(declared_len(self.partial()) == declared_len(self.raw@));
                    }
                }
                if self.position >= HEADER_SIZE && self.position == self.raw.total_length() {
                    proof {
                        assert(self.partial() =~= self.raw@);
                    }
                    let finished = self.raw.detach();
                    self.position = 0;
                    proof {
                        assert(self.partial() =~= Seq::<u8>::empty());
                    }
                    Ok(Some(finished))
                } else {
                    if self.position == HEADER_SIZE && self.raw.actual_length() == HEADER_SIZE {
                        let ghost grown = self.partial();
                        self.raw.allocate_payload();
                        proof {
                            assert(self.partial() =~= grown);
                        }
                    }
                    Ok(None)
                }
            },
        }
    }
}

/// The sending direction: owns a first-in-first-out queue of complete
/// frames and the count of head-frame bytes the socket has accepted.
pub struct OutgoingConnection {
    address: PeerAddr,
    queue: VecDeque<Frame>,
    position: usize,
}

impl OutgoingConnection {
    /// The queued frames' bytes, in enqueue order.
    pub closed spec fn queue_model(&self) -> Seq<Seq<u8>> {
        self.queue@.map(|i: int, f: Frame| f@)
    }

    /// How many bytes of the head frame the socket has already accepted.
    pub closed spec fn head_sent(&self) -> int {
        self.position as int
    }

    /// The peer address the connection was created with.
    pub closed spec fn peer(&self) -> PeerAddr {
        self.address
    }

    /// Every byte still owed to the wire: the unsent suffix of the head
    /// frame followed by every later frame, in enqueue order.
    pub open spec fn remaining(&self) -> Seq<u8> {
        self.queue_model().flatten().skip(self.head_sent())
    }

    /// Internal invariant: every queued frame is complete, and the sent
    /// position lies strictly inside the head frame (zero when the queue is
    /// empty; a fully sent head is dropped at once).
    pub closed spec fn wf(&self) -> bool {
        &&& forall|i: int|
            0 <= i < self.queue_model().len() ==> frame_done(#[trigger] self.queue_model()[i])
        &&& if self.queue_model().len() == 0 {
            self.head_sent() == 0
        } else {
            0 <= self.head_sent() < self.queue_model()[0].len()
        }
    }

    /// A connection starts with an empty queue and no partial progress.
    pub fn new(address: PeerAddr) -> (c: OutgoingConnection)
        ensures
            c.wf(),
            c.queue_model() == Seq::<Seq<u8>>::empty(),
            c.head_sent() == 0,
            c.peer() == address,
    {
        let c = OutgoingConnection { address, queue: VecDeque::new(), position: 0 };
        proof {
            assert(c.queue_model() =~= Seq::<Seq<u8>>::empty());
        }
        c
    }

    /// Read-only accessor, no side effects.
    pub fn address(&self) -> (r: &PeerAddr)
        ensures
            *r == self.peer(),
    {
        &self.address
    }

    /// Enqueue a complete, already-framed message at the tail of the queue.
    /// Never blocks and never inspects the frame's contents; the queue is
    /// unbounded by design, backpressure being the driver's concern.
    pub fn send(&mut self, frame: Frame)
        requires
            old(self).wf(),
            frame_done(frame@),
        ensures
            final(self).wf(),
            final(self).peer() == old(self).peer(),
            final(self).queue_model() == old(self).queue_model().push(frame@),
            final(self).head_sent() == old(self).head_sent(),
            final(self).remaining() == old(self).remaining() + frame@,
    {
        let ghost q = self.queue_model();
        let ghost pos = self.head_sent();
        self.queue.push_back(frame);
        proof {
            assert(self.queue_model() =~= q.push(frame@));
            q.lemma_flatten_push(frame@);
            assert(self.queue_model().flatten() == q.flatten() + frame@);
            if q.len() > 0 {
                assert(q.flatten() == q[0] + q.drop_first().flatten());
            }
            assert(pos <= q.flatten().len());
            assert(self.remaining() =~= q.flatten().skip(pos) + frame@);
        }
    }

    /// True exactly when the queue is empty: nothing is owed to the wire,
    /// and the driver need not watch for writability.
    pub fn is_idle(&self) -> (r: bool)
        ensures
            r <==> self.queue_model().len() == 0,
    {
        self.queue.len() == 0
    }

    /// The unsent suffix of the head frame, copied out for one write
    /// attempt; nothing when the queue is empty.
    pub fn pending_bytes(&self) -> (r: Option<Vec<u8>>)
        requires
            self.wf(),
        ensures
            match r {
                Some(v) => {
                    &&& self.queue_model().len() > 0
                    &&& v@ == self.queue_model()[0].skip(self.head_sent())
                    &&& v@.len() > 0
                },
                None => self.queue_model().len() == 0,
            },
    {
        if self.queue.len() == 0 {
            return None;
        }
        let bytes = self.queue[0].as_bytes();
        let mut v: Vec<u8> = Vec::new();
        let mut j: usize = self.position;
        while j < bytes.len()
            invariant
                self.position <= j <= bytes.len(),
                bytes@ == self.queue_model()[0],
                self.queue_model().len() > 0,
                v@ == bytes@.subrange(self.position as int, j as int),
            decreases bytes@.len() - j,
        {
            v.push(bytes[j]);
            proof {
                assert(v@ =~= bytes@.subrange(self.position as int, j as int + 1));
            }
            j += 1;
        }
        proof {
            assert(v@ =~= self.queue_model()[0].skip(self.head_sent()));
        }
        Some(v)
    }

    /// React to the outcome of one non-blocking write attempt made with the
    /// bytes `pending_bytes` handed out.
    ///
    /// The accepted bytes are exactly the next ones owed to the wire: the
    /// recorded position advances past them and past them only, so a later
    /// attempt resumes at the first unsent byte — nothing is re-sent and
    /// nothing skipped. The head frame is dropped the moment its last byte
    /// is accepted. A would-block outcome (or a write of zero bytes) asks
    /// the caller to await the next writability signal and leaves the state
    /// untouched; a hard I/O error is surfaced unchanged. The returned flag
    /// says whether another attempt should follow at once: a frame was just
    /// finished and more are queued.
    pub fn writable(&mut self, outcome: WriteOutcome) -> (r: Result<bool, TransportError>)
        requires
            old(self).wf(),
            old(self).queue_model().len() > 0,
            outcome matches WriteOutcome::Wrote(n) ==> n as int <= old(self).queue_model()[0].len()
                - old(self).head_sent(),
        ensures
            final(self).wf(),
            final(self).peer() == old(self).peer(),
            match outcome {
                WriteOutcome::WouldBlock => {
                    &&& r == Ok::<bool, TransportError>(false)
                    &&& *final(self) == *old(self)
                },
                WriteOutcome::Failed(e) => {
                    &&& r == Err::<bool, TransportError>(e)
                    &&& *final(self) == *old(self)
                },
                WriteOutcome::Wrote(n) => {
                    if n == 0 {
                        &&& r == Ok::<bool, TransportError>(false)
                        &&& *final(self) == *old(self)
                    } else {
                        &&& final(self).remaining() == old(self).remaining().skip(n as int)
                        &&& if n as int == old(self).queue_model()[0].len() - old(
                            self,
                        ).head_sent() {
                            &&& final(self).queue_model() == old(self).queue_model().drop_first()
                            &&& final(self).head_sent() == 0
                            &&& r == Ok::<bool, TransportError>(final(self).queue_model().len()
                                > 0)
                        } else {
                            &&& final(self).queue_model() == old(self).queue_model()
                            &&& final(self).head_sent() == old(self).head_sent() + n
                            &&& r == Ok::<bool, TransportError>(false)
                        }
                    }
                },
            },
    {
        match outcome {
            WriteOutcome::WouldBlock => Ok(false),
            WriteOutcome::Failed(e) => Err(e),
            WriteOutcome::Wrote(n) => {
                if n == 0 {
                    return Ok(false);
                }
                let ghost q = self.queue_model();
                let ghost pos = self.head_sent();
                proof {
                    assert(q.flatten() == q[0] + q.drop_first().flatten());
                }
                let head_len = self.queue[0].actual_length();
                if self.position + n == head_len {
                    let _finished = self.queue.pop_front();
                    self.position = 0;
                    proof {
                        assert(self.queue_model() =~= q.drop_first());
                        assert(self.remaining() =~= q.flatten().skip(pos).skip(n as int));
                    }
                    Ok(self.queue.len() > 0)
                } else {
                    self.position = self.position + n;
                    proof {
                        assert(self.queue_model() =~= q);
                        assert(self.remaining() =~= q.flatten().skip(pos).skip(n as int));
                    }
                    Ok(false)
                }
            },
        }
    }
}

} // verus!
