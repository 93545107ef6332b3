use aiomsg::conn::{
    check_hello, first_byte, forward_frames, heartbeat_due, on_frame, peer_silent,
    read_hello, until_heartbeat, writer_step, FirstByte, HelloStep, Session, SessionAction,
    SessionEvent, WriterEvent, WriterStep, HEARTBEAT_INTERVAL, HEARTBEAT_TIMEOUT,
};
use aiomsg::dial::{
    accept_next, accept_top, sleep_on, AcceptAction, DialAction, DialEvent, DialLoop,
};
use aiomsg::inbound::Inbound;
use aiomsg::outbox::{Flush, Outbox};
use aiomsg::polled::{
    Queued, Reactor, ReactorAction, ReactorEvent, TurnAction, TurnEvent, Turns,
};
use aiomsg::protocol::{
    ack, data, heartbeat, hello, read_frame, write_frame, Envelope, FrameDecoder, Identity,
};
use aiomsg::registry::Registry;
use aiomsg::ws::duplex::Written;
use bytes::Bytes;

const ME: Identity = [1; 16];
const PEER: Identity = [2; 16];

fn frame(envelope: &[u8]) -> Vec<u8> {
    let mut out = Vec::new();
    write_frame(&mut out, envelope);
    out
}

fn got(bytes: Vec<u8>) -> SessionEvent {
    SessionEvent::Got { got: Inbound::Bytes(bytes), expired: false }
}

fn data_of(s: &'static str) -> Envelope {
    Envelope::Data { payload: Bytes::from_static(s.as_bytes()) }
}

/// A session that has asked the broker about its peer, with `more` read behind the greeting.
fn registering(more: &[u8]) -> Session {
    let mut s = Session::new(ME);
    match s.step(SessionEvent::Started) {
        SessionAction::WriteHello(f) => assert_eq!(f, frame(&hello(&ME))),
        _ => panic!("greet first"),
    }
    assert!(matches!(s.step(SessionEvent::HelloWritten(true)), SessionAction::Read));
    let mut bytes = frame(&hello(&PEER));
    bytes.extend_from_slice(more);
    match s.step(got(bytes)) {
        SessionAction::Register(peer) => assert_eq!(peer, PEER),
        _ => panic!("the greeting is good"),
    }
    s
}

fn forwarded(action: SessionAction) -> Vec<Envelope> {
    match action {
        SessionAction::Forward { peer, envelopes, .. } => {
            assert_eq!(peer, PEER);
            envelopes
        }
        _ => panic!("pass on"),
    }
}

#[test]
fn session_from_greeting_to_end() {
    let mut early = frame(&data(b"early"));
    early.extend_from_slice(&frame(&heartbeat()));
    early.extend_from_slice(&[0, 0]);
    let mut s = registering(&early);
    assert_eq!(forwarded(s.step(SessionEvent::Registered(true))), vec![data_of("early")]);
    assert_eq!(s.held(), &[0, 0]);
    assert!(matches!(s.step(SessionEvent::Forwarded(true)), SessionAction::Read));
    let late = frame(&data(b"late"));
    assert_eq!(forwarded(s.step(got(late[2..].to_vec()))), vec![data_of("late")]);
    match s.step(SessionEvent::Got { got: Inbound::Closed, expired: false }) {
        SessionAction::Down(peer) => assert_eq!(peer, PEER),
        _ => panic!("the broker has to know"),
    }
    assert!(matches!(s.step(SessionEvent::Ended), SessionAction::Close));
}

#[test]
fn session_ends_without_a_word_before_it_opens() {
    let mut s = registering(b"");
    assert!(matches!(s.step(SessionEvent::Registered(false)), SessionAction::Close));
    let mut s = Session::new(ME);
    s.step(SessionEvent::Started);
    assert!(matches!(s.step(SessionEvent::HelloWritten(false)), SessionAction::Close));
    let mut s = Session::new(ME);
    s.step(SessionEvent::Started);
    s.step(SessionEvent::HelloWritten(true));
    assert!(matches!(s.step(got(frame(&data(b"no greeting")))), SessionAction::Close));
}

#[test]
fn session_ends_with_a_word_once_open() {
    for event in vec![
        SessionEvent::Ended,
        SessionEvent::Forwarded(false),
        SessionEvent::Got { got: Inbound::Idle, expired: false },
        SessionEvent::Got { got: Inbound::Failed, expired: false },
    ] {
        let mut s = registering(b"");
        s.step(SessionEvent::Registered(true));
        assert!(matches!(s.step(event), SessionAction::Down(_)));
    }
}

#[test]
fn session_with_a_byte_read_ahead() {
    let mut s = Session::with_first(ME, &[0]);
    s.step(SessionEvent::Started);
    assert!(matches!(s.step(SessionEvent::HelloWritten(true)), SessionAction::Read));
    let rest = frame(&hello(&PEER))[1..].to_vec();
    assert!(matches!(s.step(got(rest)), SessionAction::Register(_)));
}

#[test]
fn greetings_are_checked() {
    assert_eq!(check_hello(&hello(&PEER)), Some(PEER));
    let mut other = hello(&PEER).to_vec();
    other[1] = 2;
    assert_eq!(check_hello(&other), None);
    assert_eq!(check_hello(&heartbeat()), None);

    let mut d = FrameDecoder::new();
    assert!(matches!(read_hello(&mut d, Inbound::Idle, false), HelloStep::Read));
    assert!(matches!(read_hello(&mut d, Inbound::Idle, true), HelloStep::GiveUp));
    assert!(matches!(read_hello(&mut d, Inbound::Closed, false), HelloStep::GiveUp));
    let f = frame(&hello(&PEER));
    assert!(matches!(
        read_hello(&mut d, Inbound::Bytes(f[..7].to_vec()), false),
        HelloStep::Read
    ));
    match read_hello(&mut d, Inbound::Bytes(f[7..].to_vec()), true) {
        HelloStep::Peer(p) => assert_eq!(p, PEER),
        _ => panic!("the greeting is there"),
    }
}

#[test]
fn only_data_goes_to_the_broker() {
    assert!(on_frame(&heartbeat()).is_none());
    assert!(on_frame(&hello(&PEER)).is_none());
    assert!(on_frame(b"\xff").is_none());
    assert_eq!(on_frame(&ack(&[5; 16])), Some(Envelope::Ack { msg_id: [5; 16] }));
    let mut d = FrameDecoder::new();
    for e in vec![data(b"a"), heartbeat(), Bytes::from_static(b"\x77?"), ack(&[5; 16])] {
        d.extend_from(&frame(&e));
    }
    assert_eq!(forward_frames(&mut d), vec![data_of("a"), Envelope::Ack { msg_id: [5; 16] }]);
    assert!(d.held().is_empty());
}

#[test]
fn heartbeats_and_silence() {
    assert!(!heartbeat_due(10, 10 + HEARTBEAT_INTERVAL - 1));
    assert!(heartbeat_due(10, 10 + HEARTBEAT_INTERVAL));
    assert!(!heartbeat_due(10, 5));
    assert!(!peer_silent(10, 10 + HEARTBEAT_TIMEOUT - 1));
    assert!(peer_silent(10, 10 + HEARTBEAT_TIMEOUT));
    assert_eq!(until_heartbeat(10, 12), HEARTBEAT_INTERVAL - 2);
    assert_eq!(until_heartbeat(10, 11 + HEARTBEAT_INTERVAL), 0);
}

#[test]
fn first_bytes() {
    assert!(first_byte(&Inbound::Bytes(vec![7]), true) == FirstByte::Byte(7));
    assert!(first_byte(&Inbound::Bytes(vec![]), false) == FirstByte::Nothing);
    assert!(first_byte(&Inbound::Idle, false) == FirstByte::Retry);
    assert!(first_byte(&Inbound::Idle, true) == FirstByte::Nothing);
    assert!(first_byte(&Inbound::Failed, false) == FirstByte::Nothing);
}

#[test]
fn writers_write_what_is_queued() {
    match writer_step(WriterEvent::Queued(data(b"x"))) {
        WriterStep::Write(f) => assert_eq!(f, frame(&data(b"x"))),
        WriterStep::Stop => panic!("there is something to write"),
    }
    match writer_step(WriterEvent::Idle) {
        WriterStep::Write(f) => assert_eq!(f, vec![0, 0, 0, 1, 2]),
        WriterStep::Stop => panic!("a heartbeat is due"),
    }
    assert!(matches!(writer_step(WriterEvent::Stopped), WriterStep::Stop));
}

#[test]
fn turns_serve_both_directions() {
    let (mut t, first) = Turns::open(PEER, &frame(&data(b"early")), 0);
    match first {
        TurnAction::Pass(envelopes) => assert_eq!(envelopes, vec![data_of("early")]),
        _ => panic!("pass on what came with the greeting"),
    }
    assert!(matches!(t.step(TurnEvent::Passed(true), 0), TurnAction::Take));
    match t.step(TurnEvent::Took(Queued::Envelope(data(b"out"))), 1) {
        TurnAction::Write(f) => assert_eq!(f, frame(&data(b"out"))),
        _ => panic!("write what is queued"),
    }
    assert!(matches!(t.step(TurnEvent::Wrote(true), 2), TurnAction::Take));
    assert!(matches!(t.step(TurnEvent::Took(Queued::Empty), 3), TurnAction::Read));
    assert!(matches!(t.step(TurnEvent::Got(Inbound::Idle), 4), TurnAction::Take));
    // Quiet for an interval since the write at 2: a heartbeat, then the read.
    match t.step(TurnEvent::Took(Queued::Empty), 2 + HEARTBEAT_INTERVAL) {
        TurnAction::Write(f) => assert_eq!(f, frame(&heartbeat())),
        _ => panic!("a heartbeat is due"),
    }
    let now = 3 + HEARTBEAT_INTERVAL;
    assert!(matches!(t.step(TurnEvent::Wrote(true), now), TurnAction::Read));
    match t.step(TurnEvent::Got(Inbound::Bytes(frame(&data(b"in")))), now) {
        TurnAction::Pass(envelopes) => assert_eq!(envelopes, vec![data_of("in")]),
        _ => panic!("pass on what was read"),
    }
    assert!(matches!(t.step(TurnEvent::Passed(true), now), TurnAction::Take));
    assert!(matches!(
        t.step(TurnEvent::Took(Queued::Envelope(data(b"x"))), now + HEARTBEAT_TIMEOUT),
        TurnAction::Write(_)
    ));
    assert!(matches!(
        t.step(TurnEvent::Wrote(true), now + HEARTBEAT_TIMEOUT),
        TurnAction::Take
    ));
    // Not heard of for the timeout.
    assert!(matches!(
        t.step(TurnEvent::Took(Queued::Empty), now + HEARTBEAT_TIMEOUT),
        TurnAction::Down(_)
    ));
    assert!(matches!(t.step(TurnEvent::Took(Queued::Empty), now), TurnAction::Close));
}

#[test]
fn turns_end() {
    let open = || {
        let (mut t, _) = Turns::open(PEER, b"", 0);
        t.step(TurnEvent::Passed(true), 0);
        t
    };
    // Dropped by the broker, which knows already.
    assert!(matches!(open().step(TurnEvent::Took(Queued::Dropped), 0), TurnAction::Close));
    // A failed write ends the taking, not the connection; a failed heartbeat does end it.
    let mut t = open();
    t.step(TurnEvent::Took(Queued::Envelope(data(b"x"))), 0);
    assert!(matches!(t.step(TurnEvent::Wrote(false), 1), TurnAction::Read));
    assert!(matches!(t.step(TurnEvent::Got(Inbound::Failed), 2), TurnAction::Down(_)));
    let mut t = open();
    t.step(TurnEvent::Took(Queued::Empty), HEARTBEAT_INTERVAL);
    assert!(matches!(t.step(TurnEvent::Wrote(false), HEARTBEAT_INTERVAL), TurnAction::Down(_)));
    let (mut t, _) = Turns::open(PEER, b"", 0);
    assert!(matches!(t.step(TurnEvent::Passed(false), 0), TurnAction::Down(_)));
}

#[test]
fn reactor_round() {
    let (mut r, first) = Reactor::start(&[0], false, 0);
    assert!(matches!(first, ReactorAction::Wait(HEARTBEAT_INTERVAL)));
    let woke = ReactorEvent::Woke { ok: true, shutdown: false, readable: true };
    assert!(matches!(r.step(woke, 1), ReactorAction::Take));
    match r.step(ReactorEvent::Took(Queued::Envelope(data(b"out"))), 2) {
        ReactorAction::Enqueue(e) => assert_eq!(e, data(b"out")),
        _ => panic!("put it behind the rest"),
    }
    assert!(matches!(r.step(ReactorEvent::Took(Queued::Empty), 3), ReactorAction::Read));
    let bytes = frame(&data(b"in"))[1..].to_vec();
    match r.step(ReactorEvent::Read { bytes, closed: false, failed: false }, 4) {
        ReactorAction::Pass(envelopes) => assert_eq!(envelopes, vec![data_of("in")]),
        _ => panic!("pass on what was read"),
    }
    assert!(matches!(r.step(ReactorEvent::Passed(true), 5), ReactorAction::Flush));
    let flushed = ReactorEvent::Flushed { more: true, failed: false };
    assert!(matches!(r.step(flushed, 6), ReactorAction::Arm(true)));
    let armed = ReactorEvent::Armed { ok: true, shutdown: false };
    match r.step(armed, 7) {
        ReactorAction::Wait(t) => assert_eq!(t, HEARTBEAT_INTERVAL - 5),
        _ => panic!("wait again"),
    }
    // Nothing to read, nothing sent for an interval.
    let now = 2 + HEARTBEAT_INTERVAL;
    let woke = ReactorEvent::Woke { ok: true, shutdown: false, readable: false };
    assert!(matches!(r.step(woke, now), ReactorAction::Take));
    assert!(matches!(r.step(ReactorEvent::Took(Queued::Empty), now), ReactorAction::Flush));
    match r.step(ReactorEvent::Flushed { more: false, failed: false }, now) {
        ReactorAction::BeatAndFlush(e) => assert_eq!(e, heartbeat()),
        _ => panic!("a heartbeat is due"),
    }
    let flushed = ReactorEvent::Flushed { more: false, failed: false };
    assert!(matches!(r.step(flushed, now), ReactorAction::Arm(false)));
    let armed = ReactorEvent::Armed { ok: true, shutdown: true };
    assert!(matches!(r.step(armed, now), ReactorAction::Stop));
}

#[test]
fn reactor_stops() {
    let taking = |readable: bool| {
        let (mut r, _) = Reactor::start(b"", false, 0);
        r.step(ReactorEvent::Woke { ok: true, shutdown: false, readable }, 0);
        r
    };
    assert!(matches!(Reactor::start(b"", true, 0).1, ReactorAction::Stop));
    let woke = ReactorEvent::Woke { ok: false, shutdown: false, readable: true };
    assert!(matches!(Reactor::start(b"", false, 0).0.step(woke, 0), ReactorAction::Stop));
    assert!(matches!(
        taking(true).step(ReactorEvent::Took(Queued::Dropped), 0),
        ReactorAction::Stop
    ));
    let mut r = taking(true);
    r.step(ReactorEvent::Took(Queued::Empty), 0);
    let read = ReactorEvent::Read { bytes: vec![], closed: true, failed: false };
    assert!(matches!(r.step(read, 0), ReactorAction::Stop));
    let mut r = taking(false);
    r.step(ReactorEvent::Took(Queued::Empty), 0);
    let failed = ReactorEvent::Flushed { more: false, failed: true };
    assert!(matches!(r.step(failed, 0), ReactorAction::Stop));
    // Silent for the timeout, though a heartbeat went out.
    let mut r = taking(false);
    let now = HEARTBEAT_TIMEOUT;
    r.step(ReactorEvent::Took(Queued::Empty), now);
    r.step(ReactorEvent::Flushed { more: false, failed: false }, now);
    let flushed = ReactorEvent::Flushed { more: false, failed: false };
    assert!(matches!(r.step(flushed, now), ReactorAction::Stop));
}

#[test]
fn outbox_keeps_what_is_not_taken() {
    let mut o = Outbox::new();
    o.enqueue(&data(b"a"));
    o.enqueue(&data(b"b"));
    let mut want = frame(&data(b"a"));
    want.extend_from_slice(&frame(&data(b"b")));
    assert_eq!(o.queued(), &want[..]);
    assert!(o.flush(Written::Took(4)) == Flush::WriteMore);
    assert_eq!(o.queued(), &want[4..]);
    assert!(o.flush(Written::Took(0)) == Flush::Wait);
    assert!(o.flush(Written::Blocked) == Flush::Wait);
    assert!(o.flush(Written::Failed) == Flush::Fail);
    let n = o.queued().len();
    assert!(o.flush(Written::Took(n)) == Flush::Done);
    assert!(o.queued().is_empty());
}

#[test]
fn registry_numbers_connections() {
    let mut r = Registry::new();
    let a = r.register("a");
    let b = r.register("b");
    let c = r.register("c");
    assert_eq!((a, b, c), (0, 1, 2));
    r.deregister(b);
    assert_eq!(r.get(a), Some(&"a"));
    assert_eq!(r.get(b), None);
    let mut ids = r.ids();
    ids.sort();
    assert_eq!(ids, vec![0, 2]);
    assert_eq!(r.register("d"), 3);
}

#[test]
fn dialling_goes_on_until_the_socket_closes() {
    let mut d = DialLoop::new();
    assert!(d.step(DialEvent::Start, false) == DialAction::Dial);
    assert!(d.step(DialEvent::Dialled(false), false) == DialAction::Delay);
    assert!(d.step(DialEvent::Delayed, false) == DialAction::Dial);
    assert!(d.step(DialEvent::Dialled(true), true) == DialAction::Serve);
    assert!(d.step(DialEvent::Served, false) == DialAction::Delay);
    assert!(d.step(DialEvent::Delayed, true) == DialAction::Stop);
    assert!(d.step(DialEvent::Start, false) == DialAction::Stop);
    assert!(accept_top(false) == AcceptAction::Accept);
    assert!(accept_top(true) == AcceptAction::Stop);
    assert!(accept_next(true) == AcceptAction::Serve);
    assert!(accept_next(false) == AcceptAction::Pause);
    assert!(sleep_on(1, 2, false) && !sleep_on(2, 2, false) && !sleep_on(1, 2, true));
}

#[test]
fn two_sessions_meet() {
    let mut a = Session::new(ME);
    let mut b = Session::new(PEER);
    let (fa, fb) = match (a.step(SessionEvent::Started), b.step(SessionEvent::Started)) {
        (SessionAction::WriteHello(x), SessionAction::WriteHello(y)) => (x, y),
        _ => panic!("both greet"),
    };
    a.step(SessionEvent::HelloWritten(true));
    b.step(SessionEvent::HelloWritten(true));
    match (a.step(got(fb)), b.step(got(fa))) {
        (SessionAction::Register(x), SessionAction::Register(y)) => assert_eq!((x, y), (PEER, ME)),
        _ => panic!("both know each other"),
    }
    let mut wire: &[u8] = &frame(&data(b"x"));
    assert!(read_frame(&mut wire).is_some());
}

#[test]
fn bytes_without_a_whole_frame_keep_no_connection_alive() {
    // By turns: what dribbles in does not count, a whole frame does.
    let (mut t, _) = Turns::open(PEER, b"", 0);
    t.step(TurnEvent::Passed(true), 0);
    let beat = frame(&heartbeat());
    t.step(TurnEvent::Took(Queued::Empty), 1);
    t.step(TurnEvent::Got(Inbound::Bytes(beat[..3].to_vec())), 1);
    t.step(TurnEvent::Passed(true), HEARTBEAT_TIMEOUT);
    t.step(TurnEvent::Took(Queued::Empty), HEARTBEAT_TIMEOUT);
    assert!(matches!(t.step(TurnEvent::Wrote(true), HEARTBEAT_TIMEOUT), TurnAction::Down(_)));
    let (mut t, _) = Turns::open(PEER, &beat[..3], 0);
    t.step(TurnEvent::Passed(true), 0);
    t.step(TurnEvent::Took(Queued::Empty), 1);
    t.step(TurnEvent::Got(Inbound::Bytes(beat[3..].to_vec())), 1);
    t.step(TurnEvent::Passed(true), HEARTBEAT_TIMEOUT);
    t.step(TurnEvent::Took(Queued::Empty), HEARTBEAT_TIMEOUT);
    assert!(matches!(t.step(TurnEvent::Wrote(true), HEARTBEAT_TIMEOUT), TurnAction::Read));

    // In the reactor.
    for (bytes, alive) in vec![(vec![], false), (beat[..3].to_vec(), false), (beat.clone(), true)] {
        let (mut r, _) = Reactor::start(&[], false, 0);
        r.step(ReactorEvent::Woke { ok: true, shutdown: false, readable: true }, 1);
        r.step(ReactorEvent::Took(Queued::Empty), 1);
        r.step(ReactorEvent::Read { bytes, closed: false, failed: false }, 1);
        r.step(ReactorEvent::Passed(true), 1);
        r.step(ReactorEvent::Flushed { more: false, failed: false }, HEARTBEAT_TIMEOUT);
        let after = r.step(ReactorEvent::Flushed { more: false, failed: false }, HEARTBEAT_TIMEOUT);
        assert_eq!(matches!(after, ReactorAction::Arm(_)), alive);
        assert_eq!(matches!(after, ReactorAction::Stop), !alive);
    }

    // In a session, which is told when the time is over.
    let open = || {
        let mut s = registering(&[]);
        s.step(SessionEvent::Registered(true));
        s.step(SessionEvent::Forwarded(true));
        s
    };
    let late = |part: &[u8]| SessionEvent::Got { got: Inbound::Bytes(part.to_vec()), expired: true };
    assert!(matches!(open().step(late(&beat[..3])), SessionAction::Down(_)));
    assert!(matches!(
        open().step(got(beat[..3].to_vec())),
        SessionAction::Forward { heard: false, .. }
    ));
    assert!(matches!(open().step(late(&beat)), SessionAction::Forward { heard: true, .. }));
}
