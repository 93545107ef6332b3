use std::sync::Arc;

use aiomsg::conn::{forward_frames, writer_step, WriterEvent, WriterStep};
use aiomsg::protocol::{data, Envelope, FrameDecoder};
use aiomsg::tls::{
    after_processing, decrypt, drain_reader, enqueue, feed_step, flush_tls, offer_step, open_fed,
    write_pending, write_step, Feed, Pumped,
};
use bytes::Bytes;
use rustls::crypto::ring;
use rustls::pki_types::{CertificateDer, PrivateKeyDer, PrivatePkcs8KeyDer, ServerName};
use rustls::{
    ClientConfig, ClientConnection, Connection, RootCertStore, ServerConfig, ServerConnection,
};

/// Both ends of a connection that has not shaken hands yet, with a certificate for
/// `localhost` that the client trusts.
fn ends() -> (Connection, Connection) {
    let ck = rcgen::generate_simple_self_signed(vec!["localhost".to_string()]).unwrap();
    let cert = CertificateDer::from(ck.cert.der().to_vec());
    let key = PrivateKeyDer::Pkcs8(PrivatePkcs8KeyDer::from(ck.key_pair.serialize_der()));
    let provider = Arc::new(ring::default_provider());
    let server = ServerConfig::builder_with_provider(provider.clone())
        .with_safe_default_protocol_versions()
        .unwrap()
        .with_no_client_auth()
        .with_single_cert(vec![cert.clone()], key)
        .unwrap();
    let mut roots = RootCertStore::empty();
    roots.add(cert).unwrap();
    let client = ClientConfig::builder_with_provider(provider)
        .with_safe_default_protocol_versions()
        .unwrap()
        .with_root_certificates(roots)
        .with_no_client_auth();
    let name = ServerName::try_from("localhost").unwrap();
    (
        Connection::from(ServerConnection::new(Arc::new(server)).unwrap()),
        Connection::from(ClientConnection::new(Arc::new(client), name).unwrap()),
    )
}

/// Carries what waits at one end to the other, and gives the plaintext that comes of it.
fn carry(from: &mut Connection, to: &mut Connection) -> Vec<u8> {
    let mut cipher = Vec::new();
    assert_eq!(write_pending(from, None, &mut cipher), Pumped::Done);
    let mut plain = Vec::new();
    assert_eq!(decrypt(to, &cipher, &mut plain), Pumped::Done);
    plain
}

fn pair() -> (Connection, Connection) {
    let (mut server, mut client) = ends();
    while server.is_handshaking() || client.is_handshaking() {
        assert!(carry(&mut client, &mut server).is_empty());
        assert!(carry(&mut server, &mut client).is_empty());
    }
    (server, client)
}

/// The bytes that a writer sends for `payload`.
fn frame_of(payload: &[u8]) -> Vec<u8> {
    match writer_step(WriterEvent::Queued(data(payload))) {
        WriterStep::Write(frame) => frame,
        WriterStep::Stop => panic!("there is something to write"),
    }
}

fn payloads(decoder: &mut FrameDecoder) -> Vec<Bytes> {
    let mut all = Vec::new();
    for envelope in forward_frames(decoder) {
        match envelope {
            Envelope::Data { payload } => all.push(payload),
            _ => panic!("only data was sent"),
        }
    }
    all
}

#[test]
fn tls_tls_roundtrip() {
    let (mut server, mut client) = pair();
    let mut cipher = Vec::new();
    let frame = frame_of(b"secure hello");
    assert_eq!(write_pending(&mut server, Some(&frame), &mut cipher), Pumped::Done);
    assert!(cipher.len() > frame.len());
    assert!(!cipher.windows(12).any(|w| w == b"secure hello"));
    let mut plain = Vec::new();
    assert_eq!(decrypt(&mut client, &cipher, &mut plain), Pumped::Done);
    assert_eq!(plain, frame);
    let mut decoder = FrameDecoder::new();
    decoder.extend_from(&plain);
    assert_eq!(payloads(&mut decoder), vec![Bytes::from_static(b"secure hello")]);
}

/// Sends `count` messages of `size` bytes, the records read in pieces, and sees each arrive.
fn one_directional(from: &mut Connection, to: &mut Connection, size: usize, count: usize) {
    let frame = frame_of(&vec![0xABu8; size]);
    let mut decoder = FrameDecoder::new();
    let mut got = 0;
    for _ in 0..count {
        let mut cipher = Vec::new();
        assert_eq!(write_pending(from, Some(&frame), &mut cipher), Pumped::Done);
        for raw in cipher.chunks(16 * 1024) {
            let mut plain = Vec::new();
            assert_eq!(decrypt(to, raw, &mut plain), Pumped::Done);
            decoder.extend_from(&plain);
            for payload in payloads(&mut decoder) {
                assert_eq!(payload.len(), size);
                got += 1;
            }
        }
    }
    assert_eq!(got, count);
}

#[test]
fn tls_stream_8kib_one_directional() {
    let (mut server, mut client) = pair();
    one_directional(&mut server, &mut client, 8 * 1024, 2000);
}

#[test]
fn tls_stream_64kib_one_directional() {
    let (mut server, mut client) = pair();
    one_directional(&mut server, &mut client, 64 * 1024, 500);
}

#[test]
fn tls_stream_bidirectional() {
    let (mut a, mut b) = pair();
    for _ in 0..2000 {
        one_directional(&mut a, &mut b, 8 * 1024, 1);
        one_directional(&mut b, &mut a, 8 * 1024, 1);
    }
}

#[test]
fn records_and_plaintext_keep_their_order() {
    let (mut server, mut client) = pair();
    let mut cipher = Vec::new();
    assert_eq!(write_pending(&mut server, Some(b"one "), &mut cipher), Pumped::Done);
    assert_eq!(write_pending(&mut server, Some(b"two "), &mut cipher), Pumped::Done);
    assert_eq!(write_pending(&mut server, Some(b""), &mut cipher), Pumped::Done);
    assert_eq!(write_pending(&mut server, None, &mut cipher), Pumped::Done);
    assert_eq!(write_pending(&mut server, Some(b"three"), &mut cipher), Pumped::Done);
    let (front, back) = cipher.split_at(7);
    let mut plain = b"zero ".to_vec();
    assert_eq!(decrypt(&mut client, front, &mut plain), Pumped::Done);
    assert_eq!(plain, b"zero ");
    assert_eq!(decrypt(&mut client, back, &mut plain), Pumped::Done);
    assert_eq!(plain, b"zero one two three");
}

#[test]
fn an_enqueued_envelope_waits_for_the_flush() {
    let (mut server, mut client) = pair();
    assert!(!server.wants_write());
    assert!(enqueue(&mut server, &data(b"later")));
    assert!(server.wants_write());
    let mut cipher = Vec::new();
    assert!(flush_tls(&mut server, &mut cipher));
    assert!(!server.wants_write());
    let mut plain = Vec::new();
    assert_eq!(decrypt(&mut client, &cipher, &mut plain), Pumped::Done);
    assert_eq!(plain, frame_of(b"later"));
    // The connection holds 64 KiB of records and takes no more before they are flushed.
    assert!(!enqueue(&mut server, &data(&[7; 100_000])));
}

#[test]
fn what_waits_for_the_reader_is_drained_whole() {
    let (mut server, mut client) = pair();
    let text: Vec<u8> = (0..40_000u32).map(|i| (i % 251) as u8).collect();
    let mut cipher = Vec::new();
    // The records are processed without their plaintext being read.
    for part in text.chunks(10_000) {
        cipher.clear();
        assert_eq!(write_pending(&mut server, Some(part), &mut cipher), Pumped::Done);
        let mut rest: &[u8] = &cipher;
        while !rest.is_empty() && client.read_tls(&mut rest).is_ok() {
            client.process_new_packets().unwrap();
        }
    }
    let mut plain = Vec::new();
    drain_reader(&mut client, &mut plain);
    assert!(plain.len() > 16 * 1024);
    assert_eq!(plain, text[..plain.len()]);
    let mut none = Vec::new();
    drain_reader(&mut client, &mut none);
    assert!(none.is_empty());
}

#[test]
fn a_peer_that_ended_is_read_no_more() {
    let (mut server, mut client) = pair();
    server.send_close_notify();
    assert!(carry(&mut server, &mut client).is_empty());
    let mut cipher = Vec::new();
    let mut plain = Vec::new();
    assert_eq!(decrypt(&mut client, &[1, 2, 3], &mut plain), Pumped::Done);
    assert!(plain.is_empty());
    assert_eq!(write_pending(&mut client, Some(b"still"), &mut cipher), Pumped::Done);
}

#[test]
fn a_peer_that_does_not_speak_tls_fails() {
    let (mut server, _) = ends();
    let mut plain = Vec::new();
    assert_eq!(decrypt(&mut server, b"GET / HTTP/1.1\r\n\r\n", &mut plain), Pumped::Failed);
    assert!(plain.is_empty());
    let mut cipher = Vec::new();
    assert_eq!(write_pending(&mut server, Some(b"x"), &mut cipher), Pumped::Failed);
}

#[test]
fn a_connection_that_cannot_send_yet_takes_a_limited_amount() {
    let (_, mut client) = ends();
    let mut cipher = Vec::new();
    assert_eq!(write_pending(&mut client, Some(&[7; 100_000]), &mut cipher), Pumped::Stuck);
}

#[test]
fn feeding_goes_on_until_all_is_taken() {
    assert_eq!(feed_step(0, 10, Some(4), false), Feed::More(4, false));
    assert_eq!(feed_step(4, 10, None, false), Feed::More(4, true));
    assert_eq!(feed_step(4, 10, Some(5), true), Feed::More(9, false));
    assert_eq!(feed_step(4, 10, Some(6), true), Feed::Done);
    assert_eq!(feed_step(4, 10, Some(0), false), Feed::Done);
    assert_eq!(feed_step(4, 10, None, true), Feed::Stuck);
    assert_eq!(write_step(0, 10, 4, false), Feed::More(4, false));
    assert_eq!(write_step(4, 10, 0, false), Feed::More(4, true));
    assert_eq!(write_step(4, 10, 6, true), Feed::Done);
    assert_eq!(write_step(4, 10, 0, true), Feed::Stuck);
    assert_eq!(offer_step(0, 10, Some(4)), Feed::More(4, false));
    assert_eq!(offer_step(4, 10, Some(6)), Feed::Done);
    assert_eq!(offer_step(4, 10, Some(0)), Feed::Stuck);
    assert_eq!(offer_step(4, 10, None), Feed::Stuck);
}

#[test]
fn a_flush_of_nothing_succeeds() {
    let (mut server, _) = pair();
    let mut cipher = vec![1, 2];
    assert!(flush_tls(&mut server, &mut cipher));
    assert!(flush_tls(&mut server, &mut cipher));
    assert_eq!(cipher, vec![1, 2]);
}

#[test]
fn a_failed_connection_accepts_no_envelope() {
    let (mut server, _) = ends();
    let mut plain = Vec::new();
    assert_eq!(decrypt(&mut server, b"not a record", &mut plain), Pumped::Failed);
    assert!(!enqueue(&mut server, &data(b"lost")));
}

#[test]
fn what_was_fed_is_opened() {
    let (mut server, mut client) = pair();
    let mut cipher = Vec::new();
    assert_eq!(write_pending(&mut server, Some(b"opened"), &mut cipher), Pumped::Done);
    let mut rest: &[u8] = &cipher;
    let mut plain = b"first ".to_vec();
    while !rest.is_empty() {
        client.read_tls(&mut rest).unwrap();
        assert!(open_fed(&mut client, &mut plain));
    }
    assert_eq!(plain, b"first opened");
    let mut junk: &[u8] = b"not a record at all";
    client.read_tls(&mut junk).unwrap();
    assert!(!open_fed(&mut client, &mut plain));
    assert_eq!(plain, b"first opened");
}

#[test]
fn a_broken_connection_stays_broken() {
    let (mut server, mut client) = pair();
    let mut plain = Vec::new();
    assert_eq!(decrypt(&mut client, b"not a record at all", &mut plain), Pumped::Failed);
    let mut cipher = Vec::new();
    assert_eq!(write_pending(&mut server, Some(b"too late"), &mut cipher), Pumped::Done);
    assert_eq!(decrypt(&mut client, &cipher, &mut plain), Pumped::Failed);
    assert!(!open_fed(&mut client, &mut plain));
    assert!(plain.is_empty());
    assert!(!enqueue(&mut client, &data(b"x")));
    // There is nothing to refuse in nothing.
    assert_eq!(write_pending(&mut client, None, &mut cipher), Pumped::Done);
}

#[test]
fn what_processing_answers_decides() {
    assert_eq!(after_processing(Feed::Done, true), Some(Pumped::Done));
    assert_eq!(after_processing(Feed::Stuck, true), Some(Pumped::Stuck));
    assert_eq!(after_processing(Feed::More(3, false), true), None);
    assert_eq!(after_processing(Feed::Done, false), Some(Pumped::Failed));
    assert_eq!(after_processing(Feed::Stuck, false), Some(Pumped::Failed));
    assert_eq!(after_processing(Feed::More(3, true), false), Some(Pumped::Failed));
}
