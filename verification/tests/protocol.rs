use aiomsg::frames;
use aiomsg::inbound::Inbound;
use aiomsg::protocol::{
    ack, data, data_req, decode, heartbeat, hello, read_frame, write_frame, Envelope, Exact,
    FrameDecoder, FrameRead, FrameReader, Read1, PROTOCOL_VERSION,
};
use bytes::Bytes;

/// The envelope inside a ready-made frame.
fn envelope_of(frame: Bytes) -> Bytes {
    frame.slice(4..)
}

#[test]
fn hello_roundtrip() {
    let id = [7u8; 16];
    let env = frames::decode(envelope_of(frames::hello(&id))).unwrap();
    assert_eq!(env, Envelope::Hello { version: PROTOCOL_VERSION, identity: id });
}

#[test]
fn heartbeat_roundtrip() {
    assert_eq!(frames::decode(envelope_of(frames::heartbeat())).unwrap(), Envelope::Heartbeat);
}

#[test]
fn data_roundtrip() {
    let env = frames::decode(envelope_of(frames::data(b"hello"))).unwrap();
    assert_eq!(env, Envelope::Data { payload: Bytes::from_static(b"hello") });
}

#[test]
fn data_req_and_ack_roundtrip() {
    let msg_id = [9u8; 16];
    let env = frames::decode(envelope_of(frames::data_req(&msg_id, b"payload"))).unwrap();
    assert_eq!(env, Envelope::DataReq { msg_id, payload: Bytes::from_static(b"payload") });
    assert_eq!(frames::decode(envelope_of(frames::ack(&msg_id))).unwrap(), Envelope::Ack { msg_id });
}

#[test]
fn protocol_payload_never_collides_with_control_frames() {
    let sneaky = b"\x02aiomsg-heartbeat";
    let env = frames::decode(envelope_of(frames::data(sneaky))).unwrap();
    assert_eq!(env, Envelope::Data { payload: Bytes::copy_from_slice(sneaky) });
    assert_eq!(
        decode(&data(sneaky)).unwrap(),
        Envelope::Data { payload: Bytes::copy_from_slice(sneaky) }
    );
}

#[test]
fn protocol_empty_and_unknown_are_none() {
    assert_eq!(frames::decode(Bytes::new()), None);
    assert_eq!(frames::decode(Bytes::from_static(b"\xffwhatever")), None);
    assert_eq!(decode(b""), None);
    assert_eq!(decode(b"\xffx"), None);
}

#[test]
fn protocol_envelope_roundtrips() {
    let id = [7u8; 16];
    assert_eq!(
        decode(&hello(&id)).unwrap(),
        Envelope::Hello { version: PROTOCOL_VERSION, identity: id }
    );
    assert_eq!(decode(&heartbeat()).unwrap(), Envelope::Heartbeat);
    assert_eq!(
        decode(&data(b"hi")).unwrap(),
        Envelope::Data { payload: Bytes::from_static(b"hi") }
    );
    let m = [9u8; 16];
    assert_eq!(
        decode(&data_req(&m, b"p")).unwrap(),
        Envelope::DataReq { msg_id: m, payload: Bytes::from_static(b"p") }
    );
    assert_eq!(decode(&ack(&m)).unwrap(), Envelope::Ack { msg_id: m });
}

#[test]
fn protocol_frame_roundtrip() {
    let mut buf: Vec<u8> = Vec::new();
    write_frame(&mut buf, &data(b"framed"));
    let mut cursor: &[u8] = &buf;
    let frame = read_frame(&mut cursor).unwrap();
    assert_eq!(
        decode(&frame).unwrap(),
        Envelope::Data { payload: Bytes::from_static(b"framed") }
    );
    assert!(read_frame(&mut cursor).is_none());
}

/// A source that hands out at most `chunk` bytes per read, with a timeout before each.
struct Trickle {
    data: Vec<u8>,
    pos: usize,
    chunk: usize,
    stalled: bool,
}

impl Trickle {
    fn read(&mut self) -> Inbound {
        if self.pos >= self.data.len() {
            return Inbound::Closed;
        }
        if !self.stalled {
            self.stalled = true;
            return Inbound::Idle;
        }
        self.stalled = false;
        let n = self.chunk.min(self.data.len() - self.pos);
        let got = self.data[self.pos..self.pos + n].to_vec();
        self.pos += n;
        Inbound::Bytes(got)
    }
}

#[test]
fn decoder_reassembles_across_partial_and_timed_out_reads() {
    let mut wire = Vec::new();
    write_frame(&mut wire, &data(b"hello"));
    write_frame(&mut wire, &data(b"world"));

    let mut src = Trickle { data: wire, pos: 0, chunk: 3, stalled: false };
    let mut dec = FrameDecoder::new();

    let mut frames = Vec::new();
    loop {
        if let Some(f) = dec.pop() {
            frames.push(decode(&f).unwrap());
            continue;
        }
        match dec.read1(src.read()) {
            Ok(Read1::Frame(f)) => frames.push(decode(&f).unwrap()),
            Ok(Read1::Pending) => {}
            Ok(Read1::Closed) => break,
            Err(_) => panic!("the source never fails"),
        }
    }

    assert_eq!(
        frames,
        vec![
            Envelope::Data { payload: Bytes::from_static(b"hello") },
            Envelope::Data { payload: Bytes::from_static(b"world") },
        ]
    );
}

#[test]
fn wire_bytes_are_exact() {
    let id: [u8; 16] = [1, 2, 3, 4, 5, 6, 7, 8, 9, 10, 11, 12, 13, 14, 15, 16];
    let mut want = vec![0x01, 0x01];
    want.extend_from_slice(&id);
    assert_eq!(&hello(&id)[..], &want[..]);
    assert_eq!(&heartbeat()[..], &[0x02]);
    assert_eq!(&data(b"ab")[..], &[0x03, b'a', b'b']);
    let mut want = vec![0x04];
    want.extend_from_slice(&id);
    want.push(b'z');
    assert_eq!(&data_req(&id, b"z")[..], &want[..]);
    let mut want = vec![0x05];
    want.extend_from_slice(&id);
    assert_eq!(&ack(&id)[..], &want[..]);
}

#[test]
fn ready_made_frames_are_framed_envelopes() {
    let id = [3u8; 16];
    let pairs = vec![
        (frames::hello(&id), hello(&id)),
        (frames::heartbeat(), heartbeat()),
        (frames::data(b""), data(b"")),
        (frames::data(&[7u8; 300]), data(&[7u8; 300])),
        (frames::data_req(&id, b"xyz"), data_req(&id, b"xyz")),
        (frames::ack(&id), ack(&id)),
    ];
    for (frame, envelope) in pairs {
        let mut want = Vec::new();
        write_frame(&mut want, &envelope);
        assert_eq!(&frame[..], &want[..]);
    }
    assert_eq!(&frames::heartbeat()[..], &[0, 0, 0, 1, 2]);
}

#[test]
fn truncated_fields_are_no_message() {
    let id = [3u8; 16];
    for envelope in vec![hello(&id), data_req(&id, b""), ack(&id)] {
        assert!(decode(&envelope).is_some());
        for n in 0..envelope.len() {
            assert_eq!(decode(&envelope[..n]), None);
            assert_eq!(frames::decode(envelope.slice(..n)), None);
        }
    }
}

#[test]
fn trailing_bytes_of_fixed_envelopes_are_passed_over() {
    let mut long = ack(&[4u8; 16]).to_vec();
    long.extend_from_slice(b"more");
    assert_eq!(decode(&long), Some(Envelope::Ack { msg_id: [4u8; 16] }));
    assert_eq!(decode(b"\x02junk"), Some(Envelope::Heartbeat));
}

#[test]
fn frame_cut_short_is_none() {
    let mut buf = Vec::new();
    write_frame(&mut buf, b"abcdef");
    for n in 0..buf.len() {
        let mut part: &[u8] = &buf[..n];
        assert!(read_frame(&mut part).is_none());
        assert!(part.is_empty());
    }
}

#[test]
fn frames_survive_any_cutting() {
    let mut wire = Vec::new();
    let envelopes: Vec<Vec<u8>> = vec![vec![], vec![1], vec![2; 200], vec![3; 5]];
    for e in &envelopes {
        write_frame(&mut wire, e);
    }
    for chunk in 1..wire.len() + 1 {
        let mut dec = FrameDecoder::new();
        let mut got = Vec::new();
        for part in wire.chunks(chunk) {
            dec.extend_from(part);
            while let Some(f) = dec.pop() {
                got.push(f);
            }
        }
        assert_eq!(got, envelopes);
    }
}

#[test]
fn decoder_reports_a_failed_read() {
    let mut dec = FrameDecoder::new();
    assert!(dec.read1(Inbound::Failed).is_err());
    assert!(matches!(dec.read1(Inbound::Closed), Ok(Read1::Closed)));
}

#[test]
fn exact_reads_make_frames() {
    let mut wire = Vec::new();
    write_frame(&mut wire, b"one");
    write_frame(&mut wire, b"");
    let mut at = 0;
    let mut reader = FrameReader::new();
    let mut got = Vec::new();
    loop {
        let n = reader.wanted() as usize;
        let read = if at + n <= wire.len() && (n > 0 || at < wire.len() || got.len() == 1) {
            let b = wire[at..at + n].to_vec();
            at += n;
            Exact::Filled(b)
        } else {
            Exact::Eof
        };
        match reader.step(read) {
            FrameRead::ReadOn => {}
            FrameRead::Frame(f) => got.push(f),
            FrameRead::Closed => break,
            FrameRead::Failed => panic!("nothing failed"),
        }
    }
    assert_eq!(got, vec![b"one".to_vec(), b"".to_vec()]);
    assert!(matches!(reader.step(Exact::Failed), FrameRead::Failed));
}

#[test]
fn a_close_within_a_frame_is_no_clean_close() {
    let mut dec = FrameDecoder::new();
    assert!(matches!(dec.read1(Inbound::Bytes(vec![0, 0, 0, 2, 7])), Ok(Read1::Pending)));
    assert!(dec.read1(Inbound::Closed).is_err());
    assert_eq!(dec.held(), &[0, 0, 0, 2, 7]);
    match dec.read1(Inbound::Bytes(vec![8])) {
        Ok(Read1::Frame(f)) => assert_eq!(f, vec![7, 8]),
        _ => panic!("the frame is whole"),
    }
    assert!(matches!(dec.read1(Inbound::Closed), Ok(Read1::Closed)));
}

#[test]
fn a_frame_that_is_held_comes_before_what_is_read() {
    for got in vec![Inbound::Idle, Inbound::Closed, Inbound::Failed, Inbound::Bytes(vec![0, 0])] {
        let mut dec = FrameDecoder::new();
        dec.extend_from(&[0, 0, 0, 1, 5, 0]);
        let more = matches!(got, Inbound::Bytes(_));
        match dec.read1(got) {
            Ok(Read1::Frame(f)) => assert_eq!(f, vec![5]),
            _ => panic!("a whole frame is held"),
        }
        assert_eq!(dec.held(), if more { &[0u8, 0, 0][..] } else { &[0u8][..] });
    }
}
