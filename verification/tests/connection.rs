use framed_conn::connection::{
    IncomingConnection, OutgoingConnection, PeerAddr, ReadOutcome, TransportError, WriteOutcome,
};
use framed_conn::frame::{Frame, HEADER_SIZE};

fn addr() -> PeerAddr {
    PeerAddr { octets: vec![127, 0, 0, 1], port: 7000 }
}

/// Header-then-payload bytes for a frame whose total length (header
/// included) is `4 + payload.len()`, the total stored big-endian.
fn frame_bytes(payload: &[u8]) -> Vec<u8> {
    let total = (HEADER_SIZE + payload.len()) as u32;
    let mut v = total.to_be_bytes().to_vec();
    v.extend_from_slice(payload);
    v
}

fn complete_frame(payload: &[u8]) -> Frame {
    Frame::from_bytes(frame_bytes(payload)).expect("complete frame bytes")
}

/// Feed `stream` to the connection in chunks no larger than the script
/// says, each also capped by what the connection asks for; collect every
/// delivered frame's bytes.
fn drive_read(conn: &mut IncomingConnection, stream: &[u8], script: &[usize]) -> Vec<Vec<u8>> {
    let mut frames = Vec::new();
    let mut offset = 0;
    for &step in script {
        if offset == stream.len() {
            break;
        }
        let cap = conn.read_capacity();
        let n = step.min(cap).min(stream.len() - offset);
        let chunk = stream[offset..offset + n].to_vec();
        offset += n;
        match conn.readable(ReadOutcome::Bytes(chunk)) {
            Ok(Some(frame)) => frames.push(frame.as_bytes().clone()),
            Ok(None) => {}
            Err(e) => panic!("unexpected transport error {:?}", e),
        }
    }
    assert_eq!(offset, stream.len(), "script too short for the stream");
    frames
}

#[test]
fn header_then_payload_chunks() {
    // Header size 4, big-endian total length 10: a 4-byte then a 6-byte
    // chunk deliver nothing, then the whole frame.
    let mut conn = IncomingConnection::new(addr());
    let bytes = frame_bytes(&[10, 20, 30, 40, 50, 60]);
    assert_eq!(bytes.len(), 10);

    let first = conn.readable(ReadOutcome::Bytes(bytes[..4].to_vec())).unwrap();
    assert!(first.is_none());
    let second = conn.readable(ReadOutcome::Bytes(bytes[4..].to_vec())).unwrap();
    let frame = second.expect("frame completes on the second chunk");
    assert_eq!(frame.as_bytes(), &bytes);
    assert_eq!(frame.actual_length(), 10);
    assert_eq!(frame.total_length(), 10);
}

#[test]
fn single_byte_chunks() {
    let mut conn = IncomingConnection::new(addr());
    let bytes = frame_bytes(&[9, 8, 7]);
    let frames = drive_read(&mut conn, &bytes, &[1; 16]);
    assert_eq!(frames, vec![bytes]);
}

#[test]
fn chunks_straddling_header_boundary() {
    // The stream is cut at 3 and 3: the second cut straddles the
    // header/payload boundary, so the connection takes it in two reads.
    let mut conn = IncomingConnection::new(addr());
    let bytes = frame_bytes(&[1, 2, 3, 4]);
    let frames = drive_read(&mut conn, &bytes, &[3, 3, 3, 3, 3]);
    assert_eq!(frames, vec![bytes]);
}

#[test]
fn several_frames_in_sequence() {
    let mut conn = IncomingConnection::new(addr());
    let a = frame_bytes(&[1, 1]);
    let b = frame_bytes(&[2, 2, 2]);
    let c = frame_bytes(&[]);
    let mut stream = a.clone();
    stream.extend_from_slice(&b);
    stream.extend_from_slice(&c);
    let frames = drive_read(&mut conn, &stream, &[5; 32]);
    assert_eq!(frames, vec![a, b, c]);
}

#[test]
fn empty_payload_frame() {
    // A declared total of exactly the header size completes without any
    // payload allocation.
    let mut conn = IncomingConnection::new(addr());
    let bytes = frame_bytes(&[]);
    let frame = conn.readable(ReadOutcome::Bytes(bytes.clone())).unwrap();
    assert_eq!(frame.expect("header-only frame").as_bytes(), &bytes);
}

#[test]
fn declared_length_below_header_is_clamped() {
    // A header declaring total length 0 is treated as declaring an empty
    // payload: the frame completes at the header.
    let mut conn = IncomingConnection::new(addr());
    let frame = conn.readable(ReadOutcome::Bytes(vec![0, 0, 0, 0])).unwrap();
    let frame = frame.expect("clamped frame completes at the header");
    assert_eq!(frame.as_bytes(), &vec![0, 0, 0, 0]);
    assert_eq!(frame.total_length(), 4);
}

#[test]
fn would_block_leaves_progress_intact() {
    let mut conn = IncomingConnection::new(addr());
    let bytes = frame_bytes(&[5, 6, 7, 8]);

    assert!(conn.readable(ReadOutcome::Bytes(bytes[..4].to_vec())).unwrap().is_none());
    assert!(conn.readable(ReadOutcome::Bytes(bytes[4..6].to_vec())).unwrap().is_none());
    let cap_before = conn.read_capacity();

    // Nothing available right now: no frame, and nothing forgotten.
    assert!(conn.readable(ReadOutcome::WouldBlock).unwrap().is_none());
    assert!(conn.readable(ReadOutcome::Bytes(Vec::new())).unwrap().is_none());
    assert_eq!(conn.read_capacity(), cap_before);

    let frame = conn.readable(ReadOutcome::Bytes(bytes[6..].to_vec())).unwrap();
    assert_eq!(frame.expect("frame still completes").as_bytes(), &bytes);
}

#[test]
fn read_error_is_surfaced() {
    let mut conn = IncomingConnection::new(addr());
    assert!(conn.readable(ReadOutcome::Bytes(frame_bytes(&[1])[..4].to_vec())).unwrap().is_none());
    let err = TransportError { code: 104 };
    assert!(matches!(conn.readable(ReadOutcome::Failed(err)), Err(e) if e == err));
    // The state is intact: the driver decides what to do with the object.
    let cap = conn.read_capacity();
    assert_eq!(cap, 1);
}

#[test]
fn read_capacity_tracks_header_then_declared_total() {
    let mut conn = IncomingConnection::new(addr());
    assert_eq!(conn.read_capacity(), 4);
    assert!(conn.readable(ReadOutcome::Bytes(frame_bytes(&[1, 2, 3])[..2].to_vec())).unwrap().is_none());
    assert_eq!(conn.read_capacity(), 2);
    assert!(conn.readable(ReadOutcome::Bytes(frame_bytes(&[1, 2, 3])[2..4].to_vec())).unwrap().is_none());
    // Header complete: the payload region is allocated at once.
    assert_eq!(conn.read_capacity(), 3);
}

#[test]
fn address_is_kept() {
    let conn = IncomingConnection::new(addr());
    assert_eq!(conn.address().octets, vec![127, 0, 0, 1]);
    assert_eq!(conn.address().port, 7000);
    let out = OutgoingConnection::new(addr());
    assert_eq!(out.address().octets, vec![127, 0, 0, 1]);
    assert_eq!(out.address().port, 7000);
}

#[test]
fn from_bytes_validates_length() {
    assert!(Frame::from_bytes(vec![0, 0]).is_none());
    assert!(Frame::from_bytes(frame_bytes(&[1, 2])).is_some());
    let mut wrong = frame_bytes(&[1, 2]);
    wrong.push(3);
    assert!(Frame::from_bytes(wrong).is_none());
}

#[test]
fn partial_write_resumes_at_first_unsent_byte() {
    // Two frames of lengths 5 and 7; the socket first accepts only 3
    // bytes. The head frame stays at the head with its progress recorded,
    // and the wire sees the exact 12-byte concatenation, nothing resent.
    let mut conn = OutgoingConnection::new(addr());
    let a = frame_bytes(&[0xAA]);
    let b = frame_bytes(&[0xBB, 0xCC, 0xDD]);
    assert_eq!((a.len(), b.len()), (5, 7));
    conn.send(complete_frame(&[0xAA]));
    conn.send(complete_frame(&[0xBB, 0xCC, 0xDD]));

    let mut wire: Vec<u8> = Vec::new();

    // First writability signal: the socket takes 3 bytes, then refuses.
    let buf = conn.pending_bytes().unwrap();
    assert_eq!(buf, a);
    wire.extend_from_slice(&buf[..3]);
    assert_eq!(conn.writable(WriteOutcome::Wrote(3)), Ok(false));
    assert!(!conn.is_idle());

    // Second signal: the head is still frame one, resumed at byte 3.
    let buf = conn.pending_bytes().unwrap();
    assert_eq!(buf, a[3..].to_vec());
    wire.extend_from_slice(&buf);
    assert_eq!(conn.writable(WriteOutcome::Wrote(2)), Ok(true));

    let buf = conn.pending_bytes().unwrap();
    assert_eq!(buf, b);
    wire.extend_from_slice(&buf);
    assert_eq!(conn.writable(WriteOutcome::Wrote(7)), Ok(false));
    assert!(conn.is_idle());

    let mut expected = a.clone();
    expected.extend_from_slice(&b);
    assert_eq!(wire, expected);
    assert_eq!(wire.len(), 12);
}

#[test]
fn wire_is_concatenation_under_scattered_acceptance() {
    let mut conn = OutgoingConnection::new(addr());
    let payloads: [&[u8]; 3] = [&[1, 2, 3], &[], &[4, 5, 6, 7, 8, 9]];
    let mut expected: Vec<u8> = Vec::new();
    for p in payloads {
        conn.send(complete_frame(p));
        expected.extend_from_slice(&frame_bytes(p));
    }

    let accepts = [1usize, 4, 2, 1, 3, 1, 5, 9, 2];
    let mut wire: Vec<u8> = Vec::new();
    let mut step = 0;
    while !conn.is_idle() {
        let buf = conn.pending_bytes().unwrap();
        let n = accepts[step % accepts.len()].min(buf.len());
        step += 1;
        wire.extend_from_slice(&buf[..n]);
        conn.writable(WriteOutcome::Wrote(n)).unwrap();
    }
    assert_eq!(wire, expected);
}

#[test]
fn would_block_when_writing_changes_nothing() {
    let mut conn = OutgoingConnection::new(addr());
    let a = frame_bytes(&[1, 2]);
    conn.send(complete_frame(&[1, 2]));
    assert_eq!(conn.writable(WriteOutcome::Wrote(0)), Ok(false));
    assert_eq!(conn.writable(WriteOutcome::WouldBlock), Ok(false));
    assert_eq!(conn.pending_bytes().unwrap(), a);
}

#[test]
fn write_error_is_surfaced() {
    let mut conn = OutgoingConnection::new(addr());
    conn.send(complete_frame(&[1]));
    let err = TransportError { code: 32 };
    assert_eq!(conn.writable(WriteOutcome::Failed(err)), Err(err));
    // The queue is untouched for the driver to inspect or drop.
    assert!(!conn.is_idle());
    assert_eq!(conn.pending_bytes().unwrap(), frame_bytes(&[1]));
}

#[test]
fn is_idle_tracks_the_queue_exactly() {
    let mut conn = OutgoingConnection::new(addr());
    assert!(conn.is_idle());
    assert!(conn.pending_bytes().is_none());
    conn.send(complete_frame(&[1, 2]));
    assert!(!conn.is_idle());
    let buf = conn.pending_bytes().unwrap();
    assert!(!conn.is_idle());
    assert_eq!(conn.writable(WriteOutcome::Wrote(buf.len())), Ok(false));
    assert!(conn.is_idle());
    assert!(conn.pending_bytes().is_none());
}

#[test]
fn frame_begin_and_allocation() {
    let mut f = Frame::begin();
    assert_eq!(f.actual_length(), HEADER_SIZE);
    assert_eq!(f.total_length(), HEADER_SIZE);
    f.allocate_payload();
    assert_eq!(f.actual_length(), HEADER_SIZE);
}
