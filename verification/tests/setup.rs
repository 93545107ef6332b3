use aiomsg::config::{DeliveryGuarantee, Error, SendMode, SocketBuilder};
use aiomsg::msgproto::{
    identity_from, read_msg, read_string, send_msg, send_string, MsgRead, MsgReader,
    MAX_MESSAGE_SIZE,
};
use aiomsg::peers::{
    Connector, ConnectorStep, Event, Hub, HubStep, PeerConfig, BACKOFF_STEPS,
};
use aiomsg::protocol::{Exact, Identity};
use aiomsg::socket::{dispatched, name_or_error, parse_server_name, Core, Lifecycle};
use aiomsg::utils::{_hexify_vec, first_chars, hex16, hexify};
use std::time::Duration;

#[test]
fn crate_it_works() {
    assert_eq!(2 + 2, 4);
}

#[test]
fn blah() {
    assert_eq!(4, 2 + 2);
}

#[test]
fn tls_connect_tls_rejects_bad_server_name() {
    assert!(matches!(parse_server_name("bad\0name".to_string()), Err(Error::InvalidServerName)));
}

#[test]
fn server_names_are_names_or_addresses() {
    for good in vec!["localhost", "example.com", "127.0.0.1", "::1"] {
        let name = parse_server_name(good.to_string());
        assert_eq!(name.unwrap().to_str(), good);
    }
    for bad in vec!["", "bad name", "-x.example"] {
        assert!(matches!(parse_server_name(bad.to_string()), Err(Error::InvalidServerName)));
    }
    assert!(matches!(name_or_error::<u8, u8>(Ok(1)), Ok(1)));
    assert!(matches!(name_or_error::<u8, u8>(Err(1)), Err(Error::InvalidServerName)));
}

#[test]
fn builder_keeps_what_it_is_told() {
    let b = SocketBuilder::<fn() -> Duration>::default();
    assert_eq!(b.send_mode, SendMode::RoundRobin);
    assert_eq!(b.delivery, DeliveryGuarantee::AtMostOnce);
    assert!(b.identity.is_none());
    assert!(b.reconnect_delay.is_none());
    let b = b
        .send_mode(SendMode::Publish)
        .delivery_guarantee(DeliveryGuarantee::AtLeastOnce)
        .identity([7; 16])
        .reconnect_delay(|| Duration::from_millis(3));
    assert_eq!(b.send_mode, SendMode::Publish);
    assert_eq!(b.delivery, DeliveryGuarantee::AtLeastOnce);
    assert_eq!(b.identity_or([8; 16]), [7; 16]);
    assert_eq!(b.reconnect_delay.as_ref().unwrap()(), Duration::from_millis(3));
    let core: Core<u8> = b.build();
    assert_eq!(core.identity, [7; 16]);
}

#[test]
fn fresh_identities_are_random_uuids() {
    let make = || {
        let core: Core<u8> = SocketBuilder::<fn() -> Duration>::default().build();
        core.identity
    };
    let (a, b) = (make(), make());
    assert_eq!(a[6] & 0xf0, 0x40);
    assert_eq!(a[8] & 0xc0, 0x80);
    assert_ne!(a, b);
    let chosen: Core<u8> =
        SocketBuilder::<fn() -> Duration>::default().build_from([4; 16], &[5; 16]);
    assert_eq!(chosen.identity, [4; 16]);
}

#[test]
fn closing_happens_once() {
    let mut l = Lifecycle::new();
    assert!(matches!(l.connect(Some(5)), Ok(5)));
    assert!(matches!(l.connect::<u8>(None), Err(Error::BadAddress)));
    assert!(l.close());
    assert!(!l.close());
    assert!(matches!(l.connect(Some(5)), Err(Error::Closed)));
    assert!(dispatched(true).is_ok());
    assert!(matches!(dispatched(false), Err(Error::Closed)));
}

#[test]
fn errors_in_words() {
    assert_eq!(Error::Io("no route".to_string()).describe(), "io error: no route");
    assert_eq!(Error::Closed.describe(), "socket is closed");
    assert_eq!(Error::BadAddress.describe(), "could not resolve address");
    assert_eq!(Error::InvalidServerName.describe(), "invalid TLS server name");
}

#[test]
fn bytes_shown() {
    assert_eq!(hexify(&[0x00, 0x0f, 0xa0, 0xff], 4), "000fa0ff");
    assert_eq!(hexify(&[0x00, 0x0f, 0xa0, 0xff], 2), "000f");
    assert_eq!(hexify(&[0xab], 9), "ab");
    assert_eq!(hexify(b"", 4), "");
    assert_eq!(_hexify_vec(&[b"\x01\x02", b"\x03"], 1), vec!["01", "03"]);
    assert_eq!(hex16(&[0x1f; 16]), "1f1f1f1f1f1f1f1f1f1f1f1f1f1f1f1f");
    assert_eq!(aiomsg::utils::stringify(b"hello there", 5), "hello");
    assert_eq!(aiomsg::utils::stringify(b"hi", 5), "hi");
    assert_eq!(aiomsg::utils::stringify(b"a\xffb", 9), "a\u{fffd}b");
    assert_eq!(aiomsg::utils::stringify("h\u{e9}llo".as_bytes(), 2), "h\u{e9}");
    assert_eq!(first_chars("abc", 2), "ab");
}

#[test]
fn peers_are_configured_in_a_chain() {
    let mut p = PeerConfig::new("127.0.0.1", 27005);
    assert_eq!((p.host.as_str(), p.port, p.ssl_context), ("127.0.0.1", 27005, None));
    p.host("example.com").port(5).ssl_context(9);
    assert_eq!((p.host.as_str(), p.port, p.ssl_context), ("example.com", 5, Some(9)));
}

#[test]
fn messages_read_back() {
    let mut wire = Vec::new();
    send_string(&mut wire, "aiomsg-heartbeat");
    assert_eq!(&wire[..4], &[0x00, 0x00, 0x00, 0x10]);
    send_msg(&mut wire, b"");
    send_msg(&mut wire, &vec![7u8; 3_000_000]);
    let mut r: &[u8] = &wire;
    assert_eq!(read_string(&mut r).unwrap(), "aiomsg-heartbeat");
    assert_eq!(read_msg(&mut r).unwrap(), b"");
    assert_eq!(read_msg(&mut r).unwrap(), vec![7u8; 3_000_000]);
    assert_eq!(read_msg(&mut r), None);
}

#[test]
fn messages_may_be_too_large() {
    let mut wire = (MAX_MESSAGE_SIZE + 1).to_be_bytes().to_vec();
    wire.resize(4 + MAX_MESSAGE_SIZE as usize + 1, 0);
    let mut r: &[u8] = &wire;
    assert_eq!(read_msg(&mut r), None);
    let mut reader = MsgReader::new();
    assert_eq!(reader.wanted(), 4);
    assert!(matches!(reader.step(Exact::Filled(wire[..4].to_vec())), MsgRead::Nothing));
    assert!(matches!(reader.step(Exact::Filled(vec![0, 0, 0, 2])), MsgRead::ReadOn));
    assert_eq!(reader.wanted(), 2);
    match reader.step(Exact::Filled(b"ok".to_vec())) {
        MsgRead::Message(m) => assert_eq!(m, b"ok"),
        _ => panic!("the message is there"),
    }
    assert!(matches!(reader.step(Exact::Eof), MsgRead::Nothing));
    assert!(matches!(reader.step(Exact::Failed), MsgRead::Nothing));
    assert_eq!(identity_from(&[6; 16]), [6; 16]);
}

fn sent_to(step: HubStep) -> Vec<u8> {
    match step {
        HubStep::SendTo(ids) => ids.iter().map(|id| id[0]).collect(),
        _ => panic!("a message goes somewhere"),
    }
}

fn message() -> Event<char> {
    Event::Message { from: [0; 16], to: vec![], msg: b"m".to_vec() }
}

fn join(n: u8, stream: char) -> Event<char> {
    let name: Identity = [n; 16];
    Event::NewPeer { name, stream }
}

#[test]
fn hub_round_robin() {
    let mut h = Hub::new(SendMode::RoundRobin);
    assert!(sent_to(h.step(message())).is_empty());
    assert!(matches!(h.step(join(1, 'a')), HubStep::Start));
    assert!(matches!(h.step(join(2, 'b')), HubStep::Start));
    assert!(matches!(h.step(join(1, 'c')), HubStep::Nothing));
    assert_eq!(h.stream(&[1; 16]), Some(&'a'));
    assert_eq!(sent_to(h.step(message())), vec![1]);
    assert_eq!(sent_to(h.step(message())), vec![2]);
    assert_eq!(sent_to(h.step(message())), vec![1]);
    h.step(Event::RemovePeer { name: [1; 16] });
    h.step(Event::RemovePeer { name: [9; 16] });
    assert_eq!(h.stream(&[1; 16]), None);
    assert_eq!(sent_to(h.step(message())), vec![2]);
    assert!(h.survives_refusal());
}

#[test]
fn hub_publish() {
    let mut h = Hub::new(SendMode::Publish);
    h.step(join(1, 'a'));
    h.step(join(2, 'b'));
    assert_eq!(sent_to(h.step(message())), vec![1, 2]);
    assert!(!h.survives_refusal());
}

#[test]
fn connectors_back_off_until_they_succeed() {
    let mut c = Connector::new();
    assert!(c.next() == ConnectorStep::Connect);
    for n in 0..BACKOFF_STEPS {
        assert!(c.next() == ConnectorStep::DelayThenConnect(n));
    }
    assert!(c.next() == ConnectorStep::DelayThenConnect(BACKOFF_STEPS));
    assert!(c.next() == ConnectorStep::DelayThenConnect(BACKOFF_STEPS));
    c.connected();
    assert!(c.next() == ConnectorStep::DelayThenConnect(0));
}

#[test]
fn the_default_delay_is_a_tenth_of_a_second() {
    let plain: SocketBuilder<fn() -> u64> = SocketBuilder::default();
    assert_eq!(Duration::from_nanos(plain.next_delay()), Duration::from_millis(100));
    let set = plain.reconnect_delay(|| 1_500);
    assert_eq!(set.next_delay(), 1_500);
}
