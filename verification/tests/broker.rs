use aiomsg::broker::{Action, Broker, Command, MAX_RETRIES};
use aiomsg::config::{DeliveryGuarantee, SendMode};
use aiomsg::protocol::{ack, data, data_req, decode, Envelope, Identity, MsgId};
use aiomsg::timers::{ResendTimers, TimedBroker, TimerMsg, RESEND_TIMEOUT};
use bytes::Bytes;

const SALT: [u8; 16] = [9; 16];

fn id(n: u8) -> Identity {
    [n; 16]
}

fn msg_id(counter: u64) -> MsgId {
    let mut m = [9u8; 16];
    m[8..].copy_from_slice(&counter.to_be_bytes());
    m
}

fn broker(mode: SendMode, guarantee: DeliveryGuarantee) -> Broker<u8> {
    Broker::with_salt(mode, guarantee, &SALT)
}

/// Actions in words.
fn show(actions: &[Action]) -> Vec<String> {
    actions
        .iter()
        .map(|a| match a {
            Action::Transmit { to, envelope } => match decode(envelope) {
                Some(Envelope::Data { payload }) => format!("data {} to {}", text(&payload), to[0]),
                Some(Envelope::DataReq { msg_id, payload }) => {
                    format!("req {} {} to {}", msg_id[15], text(&payload), to[0])
                }
                Some(Envelope::Ack { msg_id }) => format!("ack {} to {}", msg_id[15], to[0]),
                _ => format!("other"),
            },
            Action::Deliver { from, payload } => format!("deliver {} from {}", text(payload), from[0]),
            Action::Arm { msg_id } => format!("arm {}", msg_id[15]),
            Action::Cancel { msg_id } => format!("cancel {}", msg_id[15]),
            Action::Accept { accepted } => format!("accept {}", accepted),
        })
        .collect()
}

fn text(b: &Bytes) -> String {
    String::from_utf8_lossy(b).into_owned()
}

fn payload(s: &'static str) -> Bytes {
    Bytes::from_static(s.as_bytes())
}

#[test]
fn round_robin_cycles_through_the_peers() {
    let mut b = broker(SendMode::RoundRobin, DeliveryGuarantee::AtMostOnce);
    assert_eq!(show(&b.handle_up(id(1), 10)), vec!["accept true"]);
    assert_eq!(show(&b.handle_up(id(2), 20)), vec!["accept true"]);
    assert_eq!(show(&b.handle_send(None, payload("a"))), vec!["data a to 1"]);
    assert_eq!(show(&b.handle_send(None, payload("b"))), vec!["data b to 2"]);
    assert_eq!(show(&b.handle_send(None, payload("c"))), vec!["data c to 1"]);
    assert_eq!(show(&b.handle_send(None, payload("d"))), vec!["data d to 2"]);
    b.handle_down(id(1));
    assert_eq!(show(&b.handle_send(None, payload("e"))), vec!["data e to 2"]);
}

#[test]
fn publish_reaches_every_peer() {
    for guarantee in vec![DeliveryGuarantee::AtMostOnce, DeliveryGuarantee::AtLeastOnce] {
        let mut b = broker(SendMode::Publish, guarantee);
        b.handle_up(id(1), 10);
        b.handle_up(id(2), 20);
        b.handle_up(id(3), 30);
        assert_eq!(
            show(&b.handle_send(None, payload("news"))),
            vec!["data news to 1", "data news to 2", "data news to 3"]
        );
    }
}

#[test]
fn identity_routing_picks_one_peer() {
    let mut b = broker(SendMode::Publish, DeliveryGuarantee::AtMostOnce);
    b.handle_up(id(1), 10);
    b.handle_up(id(2), 20);
    assert_eq!(show(&b.handle_send(Some(id(2)), payload("x"))), vec!["data x to 2"]);
    assert!(b.handle_send(Some(id(7)), payload("x")).is_empty());
    assert_eq!(b.writer(&id(2)), Some(&20));
    assert_eq!(b.writer(&id(7)), None);
}

#[test]
fn buffered_messages_go_to_the_first_peer() {
    let mut b = broker(SendMode::RoundRobin, DeliveryGuarantee::AtMostOnce);
    assert!(b.handle_send(None, payload("one")).is_empty());
    assert!(b.handle_send(None, payload("two")).is_empty());
    assert!(b.handle_send(Some(id(5)), payload("for five")).is_empty());
    assert_eq!(
        show(&b.handle_up(id(5), 50)),
        vec!["accept true", "data one to 5", "data two to 5", "data for five to 5"]
    );
    assert_eq!(show(&b.handle_up(id(6), 60)), vec!["accept true"]);
}

#[test]
fn duplicate_identity_is_turned_away() {
    let mut b = broker(SendMode::RoundRobin, DeliveryGuarantee::AtMostOnce);
    b.handle_up(id(1), 10);
    assert_eq!(show(&b.handle_up(id(1), 11)), vec!["accept false"]);
    assert_eq!(b.writer(&id(1)), Some(&10));
    b.handle_down(id(1));
    assert_eq!(show(&b.handle_up(id(1), 12)), vec!["accept true"]);
    assert_eq!(b.writer(&id(1)), Some(&12));
}

#[test]
fn reliable_messages_are_acknowledged() {
    let mut a = broker(SendMode::RoundRobin, DeliveryGuarantee::AtLeastOnce);
    let mut b = broker(SendMode::RoundRobin, DeliveryGuarantee::AtMostOnce);
    a.handle_up(id(2), 0);
    b.handle_up(id(1), 0);
    let out = a.handle_send(None, payload("reliable"));
    assert_eq!(show(&out), vec!["arm 0", "req 0 reliable to 2"]);
    let wire = match &out[1] {
        Action::Transmit { envelope, .. } => envelope.clone(),
        _ => panic!("the request"),
    };
    assert_eq!(wire, data_req(&msg_id(0), b"reliable"));
    let back = b.handle_received(id(1), decode(&wire).unwrap());
    assert_eq!(show(&back), vec!["deliver reliable from 1", "ack 0 to 1"]);
    let answer = match &back[1] {
        Action::Transmit { envelope, .. } => envelope.clone(),
        _ => panic!("the answer"),
    };
    assert_eq!(answer, ack(&msg_id(0)));
    let done = a.handle_received(id(2), decode(&answer).unwrap());
    assert_eq!(show(&done), vec!["cancel 0"]);
    // A second answer, and the timer, mean nothing now.
    assert!(a.handle_received(id(2), decode(&answer).unwrap()).is_empty());
    assert!(a.handle_resend(msg_id(0)).is_empty());
}

#[test]
fn control_envelopes_are_not_for_the_broker() {
    let mut b = broker(SendMode::RoundRobin, DeliveryGuarantee::AtMostOnce);
    assert!(b.handle_received(id(1), Envelope::Heartbeat).is_empty());
    assert!(b.handle_received(id(1), Envelope::Hello { version: 1, identity: id(1) }).is_empty());
    assert_eq!(
        show(&b.handle_received(id(1), decode(&data(b"x")).unwrap())),
        vec!["deliver x from 1"]
    );
    // Delivered, but nobody to answer.
    assert_eq!(
        show(&b.handle_received(id(1), decode(&data_req(&msg_id(4), b"y")).unwrap())),
        vec!["deliver y from 1"]
    );
}

#[test]
fn retries_run_out() {
    let mut b = broker(SendMode::RoundRobin, DeliveryGuarantee::AtLeastOnce);
    b.handle_up(id(1), 0);
    b.handle_send(None, payload("m"));
    for n in 0..MAX_RETRIES as u64 {
        let out = b.handle_resend(msg_id(n));
        assert_eq!(
            show(&out),
            vec![format!("arm {}", n + 1), format!("req {} m to 1", n + 1)]
        );
    }
    assert!(b.handle_resend(msg_id(MAX_RETRIES as u64)).is_empty());
    assert!(b.handle_resend(msg_id(MAX_RETRIES as u64)).is_empty());
}

#[test]
fn resend_without_peers_is_buffered() {
    let mut b = broker(SendMode::RoundRobin, DeliveryGuarantee::AtLeastOnce);
    b.handle_up(id(1), 0);
    b.handle_send(Some(id(1)), payload("m"));
    b.handle_down(id(1));
    assert!(b.handle_resend(msg_id(0)).is_empty());
    assert_eq!(show(&b.handle_up(id(1), 0)), vec!["accept true", "arm 1", "req 1 m to 1"]);
}

#[test]
fn commands_reach_their_handlers() {
    let mut b = broker(SendMode::RoundRobin, DeliveryGuarantee::AtLeastOnce);
    let up = b.step(Command::ConnectionUp { identity: id(1), writer: 3 }).unwrap();
    assert_eq!(show(&up), vec!["accept true"]);
    let out = b.step(Command::Send { identity: None, data: payload("m") }).unwrap();
    assert_eq!(show(&out), vec!["arm 0", "req 0 m to 1"]);
    let again = b.step(Command::ResendTimeout { msg_id: msg_id(0) }).unwrap();
    assert_eq!(show(&again), vec!["arm 1", "req 1 m to 1"]);
    let got = b
        .step(Command::Received { identity: id(1), envelope: Envelope::Ack { msg_id: msg_id(1) } })
        .unwrap();
    assert_eq!(show(&got), vec!["cancel 1"]);
    assert!(b.step(Command::ConnectionDown { identity: id(1) }).unwrap().is_empty());
    assert!(b.step(Command::Close).is_none());
}

#[test]
fn fresh_brokers_have_their_own_salt() {
    let make = || {
        let mut b: Broker<u8> = Broker::new(SendMode::RoundRobin, DeliveryGuarantee::AtLeastOnce);
        b.handle_up(id(1), 0);
        match b.handle_send(None, payload("m")).remove(0) {
            Action::Arm { msg_id } => msg_id,
            _ => panic!("the timer comes first"),
        }
    };
    let (a, b) = (make(), make());
    assert_eq!(&a[8..], &[0u8; 8]);
    assert_eq!(a[6] & 0xf0, 0x40);
    assert_ne!(a, b);
}

#[test]
fn timers_go_off_in_order_unless_stopped() {
    let mut t = ResendTimers::new();
    assert_eq!(t.wait(0), None);
    t.arm(100, msg_id(1));
    t.arm(200, msg_id(2));
    t.arm(200, msg_id(3));
    assert_eq!(t.wait(100), Some(RESEND_TIMEOUT));
    assert_eq!(t.wait(RESEND_TIMEOUT + 500), Some(0));
    assert!(t.fire_due(RESEND_TIMEOUT + 99).is_empty());
    assert_eq!(t.fire_due(RESEND_TIMEOUT + 100), vec![msg_id(1)]);
    t.cancel(msg_id(2));
    assert_eq!(t.fire_due(RESEND_TIMEOUT + 200), vec![msg_id(3)]);
    assert!(t.fire_due(u64::MAX).is_empty());
    assert_eq!(t.wait(0), None);
}

#[test]
fn timer_turns() {
    let mut t = ResendTimers::new();
    assert_eq!(t.turn(Some(TimerMsg::Arm(msg_id(1))), 10, 10), Some(vec![]));
    assert_eq!(t.turn(None, 20, RESEND_TIMEOUT + 10), Some(vec![msg_id(1)]));
    assert_eq!(t.turn(Some(TimerMsg::Arm(msg_id(2))), 30, 30), Some(vec![]));
    assert_eq!(t.turn(Some(TimerMsg::Cancel(msg_id(2))), 40, u64::MAX), Some(vec![]));
    assert_eq!(t.turn(Some(TimerMsg::Shutdown), 50, 50), None);
}

#[test]
fn timed_broker_resends_what_is_due() {
    let mut b = TimedBroker::new(broker(SendMode::RoundRobin, DeliveryGuarantee::AtLeastOnce));
    assert_eq!(b.next_deadline(), None);
    b.step(Command::ConnectionUp { identity: id(1), writer: 7 }, 0).unwrap();
    assert_eq!(b.writer(&id(1)), Some(&7));
    let out = b.step(Command::Send { identity: None, data: payload("a") }, 10).unwrap();
    assert_eq!(show(&out), vec!["req 0 a to 1"]);
    b.step(Command::Send { identity: None, data: payload("b") }, 20).unwrap();
    assert_eq!(b.next_deadline(), Some(RESEND_TIMEOUT + 10));
    assert!(b.fire_due_resends(RESEND_TIMEOUT).is_empty());
    // The first is acknowledged, so only the second is due when both deadlines have come.
    b.step(
        Command::Received { identity: id(1), envelope: Envelope::Ack { msg_id: msg_id(0) } },
        30,
    )
    .unwrap();
    let again = b.fire_due_resends(RESEND_TIMEOUT + 20);
    assert_eq!(show(&again), vec!["req 2 b to 1"]);
    assert_eq!(b.next_deadline(), Some(2 * RESEND_TIMEOUT + 20));
    assert!(b.step(Command::Close, 40).is_none());
}

#[test]
fn message_ids_count_up_behind_the_salt() {
    let mut b = broker(SendMode::RoundRobin, DeliveryGuarantee::AtLeastOnce);
    b.handle_up(id(1), 10);
    for n in 0..5u64 {
        let actions = b.handle_send(None, payload("x"));
        match &actions[0] {
            Action::Arm { msg_id: m } => assert_eq!(*m, msg_id(n)),
            _ => panic!("a reliable message has its timer started"),
        }
    }
}

#[test]
fn every_peer_gets_as_many_turns() {
    let mut b = broker(SendMode::RoundRobin, DeliveryGuarantee::AtMostOnce);
    for n in 1..4 {
        b.handle_up(id(n), n);
    }
    b.handle_send(None, payload("first"));
    let mut turns = vec![0; 4];
    for _ in 0..12 {
        match b.handle_send(None, payload("x"))[..] {
            [Action::Transmit { to, .. }] => turns[to[0] as usize] += 1,
            _ => panic!("one peer each"),
        }
    }
    assert_eq!(turns, vec![0, 4, 4, 4]);
}

#[test]
fn a_broker_stops_at_the_close() {
    let mut b = broker(SendMode::Publish, DeliveryGuarantee::AtMostOnce);
    assert!(b.step(Command::ConnectionUp { identity: id(1), writer: 10 }).is_some());
    assert!(b.step(Command::Close).is_none());
}

#[test]
fn turns_and_ids_one_by_one() {
    let mut b = broker(SendMode::Publish, DeliveryGuarantee::AtMostOnce);
    assert_eq!(b.next_round_robin(), None);
    b.handle_up(id(1), 10);
    b.handle_up(id(2), 20);
    for _ in 0..3 {
        assert_eq!(b.next_round_robin(), Some(id(1)));
        assert_eq!(b.next_round_robin(), Some(id(2)));
    }
    for n in 0..3 {
        assert_eq!(b.next_msg_id(), msg_id(n));
    }
    // Eight bytes of a random UUID, of version 4.
    let mut fresh: Broker<u8> = Broker::new(SendMode::Publish, DeliveryGuarantee::AtMostOnce);
    assert_eq!(fresh.next_msg_id()[6] & 0xf0, 0x40);
}
