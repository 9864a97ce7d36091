//! The message frame: a fixed-size header followed by a payload, with the
//! frame's total length declared inside the header as a big-endian 32-bit
//! value. A frame's buffer starts as the bare header slot and grows to the
//! declared total length once the header bytes are fully present.

use vstd::prelude::*;

verus! {

/// Number of bytes in a frame header. The header holds the frame's total
/// length (header plus payload) as a big-endian 32-bit value.
pub const HEADER_SIZE: usize = 4;

/// The total length a header declares: the big-endian 32-bit value stored in
/// the first `HEADER_SIZE` bytes. A declared length smaller than the header
/// itself is clamped up to `HEADER_SIZE`; such a header is treated as
/// declaring an empty payload.
pub open spec fn declared_len(s: Seq<u8>) -> int
    recommends
        s.len() >= HEADER_SIZE as nat,
{
    let n = (s[0] as int) * 0x1000000 + (s[1] as int) * 0x10000 + (s[2] as int) * 0x100
        + (s[3] as int);
    if n < HEADER_SIZE as int {
        HEADER_SIZE as int
    } else {
        n
    }
}

/// A byte sequence forms one complete frame: a full header, and exactly as
/// many bytes in all as the header declares.
pub open spec fn frame_done(s: Seq<u8>) -> bool {
    s.len() >= HEADER_SIZE as nat && s.len() as int == declared_len(s)
}

/// One message frame: header-then-payload bytes in a single buffer.
pub struct Frame {
    bytes: Vec<u8>,
}

impl View for Frame {
    type V = Seq<u8>;

    closed spec fn view(&self) -> Seq<u8> {
        self.bytes@
    }
}

impl Frame {
    /// A frame holds at least its header slot, and once the payload has been
    /// allocated it holds exactly the declared total length.
    pub open spec fn wf(&self) -> bool {
        &&& self@.len() >= HEADER_SIZE as nat
        &&& (self@.len() == HEADER_SIZE as nat || self@.len() as int == declared_len(self@))
    }

    /// A fresh frame: the header slot, zero-filled, nothing received yet.
    pub fn begin() -> (f: Frame)
        ensures
            f@.len() == HEADER_SIZE as nat,
            forall|i: int| 0 <= i < HEADER_SIZE as int ==> f@[i] == 0u8,
            f.wf(),
    {
        let mut bytes: Vec<u8> = Vec::new();
        bytes.push(0u8);
        bytes.push(0u8);
        bytes.push(0u8);
        bytes.push(0u8);
        Frame { bytes }
    }

    /// How many bytes the buffer currently holds.
    pub fn actual_length(&self) -> (r: usize)
        ensures
            r == self@.len(),
    {
        self.bytes.len()
    }

    /// The total length (header plus payload) that the header declares.
    pub fn total_length(&self) -> (r: usize)
        requires
            self@.len() >= HEADER_SIZE as nat,
        ensures
            r as int == declared_len(self@),
    {
        let n: usize = (self.bytes[0] as usize) * 0x1000000 + (self.bytes[1] as usize) * 0x10000
            + (self.bytes[2] as usize) * 0x100 + (self.bytes[3] as usize);
        if n < HEADER_SIZE {
            HEADER_SIZE
        } else {
            n
        }
    }

    /// Grow the buffer from the bare header to the declared total length,
    /// zero-filling the payload region. A header that declares no payload
    /// leaves the frame unchanged.
    pub fn allocate_payload(&mut self)
        requires
            old(self)@.len() == HEADER_SIZE as nat,
        ensures
            final(self)@.len() as int == declared_len(old(self)@),
            final(self)@.subrange(0, HEADER_SIZE as int) == old(self)@,
            forall|i: int|
                HEADER_SIZE as int <= i < final(self)@.len() ==> final(self)@[i] == 0u8,
            declared_len(final(self)@) == declared_len(old(self)@),
            final(self).wf(),
    {
        let ghost orig = self@;
        let total = self.total_length();
        while self.bytes.len() < total
            invariant
                total as int == declared_len(orig),
                HEADER_SIZE as nat <= self.bytes@.len(),
                self.bytes@.len() <= total as nat,
                self.bytes@.subrange(0, HEADER_SIZE as int) == orig,
                forall|i: int|
                    HEADER_SIZE as int <= i < self.bytes@.len() ==> self.bytes@[i] == 0u8,
            decreases total - self.bytes@.len(),
        {
            self.bytes.push(0u8);
            assert(self.bytes@.subrange(0, HEADER_SIZE as int) =~= orig);
        }
        proof {
            assert(self.bytes@.subrange(0, HEADER_SIZE as int) == orig);
            assert forall|i: int| 0 <= i < HEADER_SIZE as int implies self.bytes@[i] == orig[i] by {
                assert(self.bytes@.subrange(0, HEADER_SIZE as int)[i] == self.bytes@[i]);
            }
        }
    }

    /// Copy `chunk` into the buffer starting at offset `at`, leaving every
    /// byte outside that range unchanged.
    pub fn fill(&mut self, at: usize, chunk: &Vec<u8>)
        requires
            at + chunk@.len() <= old(self)@.len(),
        ensures
            final(self)@.len() == old(self)@.len(),
            forall|i: int|
                at as int <= i < at as int + chunk@.len()
                    ==> final(self)@[i] == chunk@[i - at as int],
            forall|i: int|
                0 <= i < old(self)@.len() && !(at as int <= i < at as int + chunk@.len())
                    ==> final(self)@[i] == old(self)@[i],
    {
        let ghost orig = self@;
        let limit = self.bytes.len();
        let mut j: usize = 0;
        while j < chunk.len()
            invariant
                j <= chunk@.len(),
                at + chunk@.len() <= orig.len(),
                orig.len() == limit,
                self.bytes@.len() == orig.len(),
                forall|i: int|
                    at as int <= i < at as int + j ==> self.bytes@[i] == chunk@[i - at as int],
                forall|i: int|
                    0 <= i < orig.len() && !(at as int <= i < at as int + j) ==> self.bytes@[i]
                        == orig[i],
            decreases chunk@.len() - j,
        {
            self.bytes[at + j] = chunk[j];
            j += 1;
        }
    }

    /// Borrow the whole buffer, for draining onto the wire and for reading a
    /// delivered frame's contents.
    pub fn as_bytes(&self) -> (r: &Vec<u8>)
        ensures
            r@ == self@,
    {
        &self.bytes
    }

    /// Validate raw bytes as one complete frame: accepted exactly when the
    /// bytes hold a full header and their count equals the declared total.
    pub fn from_bytes(bytes: Vec<u8>) -> (r: Option<Frame>)
        ensures
            frame_done(bytes@) ==> (r matches Some(f) && f@ == bytes@ && f.wf()),
            !frame_done(bytes@) ==> r is None,
    {
        if bytes.len() < HEADER_SIZE {
            return None;
        }
        let f = Frame { bytes };
        let total = f.total_length();
        if f.bytes.len() == total {
            Some(f)
        } else {
            None
        }
    }

    /// Hand the buffer out as a finished frame and leave a fresh one in its
    /// place.
    pub fn detach(&mut self) -> (r: Frame)
        ensures
            r@ == old(self)@,
            final(self)@.len() == HEADER_SIZE as nat,
            forall|i: int| 0 <= i < HEADER_SIZE as int ==> final(self)@[i] == 0u8,
            final(self).wf(),
    {
        let mut fresh = Frame::begin();
        core::mem::swap(self, &mut fresh);
        fresh
    }
}

} // verus!
