use std::collections::{HashSet, VecDeque};

use aiomsg::broker::{Action, Command};
use aiomsg::config::{DeliveryGuarantee, SendMode, SocketBuilder};
use aiomsg::conn::{writer_step, Session, SessionAction, SessionEvent, WriterEvent, WriterStep};
use aiomsg::dial::{DialAction, DialEvent, DialLoop};
use aiomsg::inbound::Inbound;
use aiomsg::msgproto::{read_msg, read_string, send_msg, send_string};
use aiomsg::protocol::Identity;
use aiomsg::socket::Core;
use aiomsg::timers::{ResendTimers, RESEND_TIMEOUT};
use bytes::Bytes;

/// One end of a connection: the connection's place, and which end.
type Writer = (usize, usize);

struct Node {
    core: Core<Writer>,
    timers: ResendTimers,
    received: VecDeque<Bytes>,
}

struct End {
    node: usize,
    session: Session,
    /// Bytes on their way to this end.
    wire: Vec<u8>,
    over: bool,
}

/// Sockets, connected in memory.
struct Net {
    nodes: Vec<Node>,
    links: Vec<[End; 2]>,
}

impl Net {
    fn new() -> Self {
        Net { nodes: Vec::new(), links: Vec::new() }
    }

    fn socket(&mut self, builder: SocketBuilder<()>) -> usize {
        self.nodes.push(Node {
            core: builder.build(),
            timers: ResendTimers::new(),
            received: VecDeque::new(),
        });
        self.nodes.len() - 1
    }

    fn connect(&mut self, a: usize, b: usize) -> usize {
        let end = |node: usize, me: Identity| End {
            node,
            session: Session::new(me),
            wire: Vec::new(),
            over: false,
        };
        let link = [end(a, self.nodes[a].core.identity), end(b, self.nodes[b].core.identity)];
        self.links.push(link);
        let at = self.links.len() - 1;
        for side in 0..2 {
            let action = self.links[at][side].session.step(SessionEvent::Started);
            self.drive(at, side, action);
        }
        self.pump();
        at
    }

    fn command(&mut self, node: usize, command: Command<Writer>) -> bool {
        let actions = self.nodes[node].core.broker.step(command).unwrap();
        let mut accept = false;
        for action in actions {
            match action {
                Action::Transmit { to, envelope } => {
                    let &(link, side) = self.nodes[node].core.broker.writer(&to).unwrap();
                    match writer_step(WriterEvent::Queued(envelope)) {
                        WriterStep::Write(frame) => self.links[link][1 - side].wire.extend(frame),
                        WriterStep::Stop => panic!("there is something to write"),
                    }
                }
                Action::Deliver { payload, .. } => self.nodes[node].received.push_back(payload),
                Action::Arm { msg_id } => self.nodes[node].timers.arm(0, msg_id),
                Action::Cancel { msg_id } => self.nodes[node].timers.cancel(msg_id),
                Action::Accept { accepted } => accept = accepted,
            }
        }
        accept
    }

    fn drive(&mut self, link: usize, side: usize, first: SessionAction) {
        let node = self.links[link][side].node;
        let mut action = first;
        loop {
            let event = match action {
                SessionAction::WriteHello(frame) => {
                    self.links[link][1 - side].wire.extend(frame);
                    SessionEvent::HelloWritten(true)
                }
                SessionAction::Read => {
                    let wire = std::mem::take(&mut self.links[link][side].wire);
                    if wire.is_empty() {
                        return;
                    }
                    SessionEvent::Got { got: Inbound::Bytes(wire), expired: false }
                }
                SessionAction::Register(identity) => {
                    let writer = (link, side);
                    let up = Command::ConnectionUp { identity, writer };
                    SessionEvent::Registered(self.command(node, up))
                }
                SessionAction::Forward { peer, envelopes, .. } => {
                    for envelope in envelopes {
                        self.command(node, Command::Received { identity: peer, envelope });
                    }
                    SessionEvent::Forwarded(true)
                }
                SessionAction::Down(identity) => {
                    self.command(node, Command::ConnectionDown { identity });
                    self.links[link][side].over = true;
                    return;
                }
                SessionAction::Close => {
                    self.links[link][side].over = true;
                    return;
                }
            };
            action = self.links[link][side].session.step(event);
        }
    }

    /// Lets everything arrive.
    fn pump(&mut self) {
        let mut busy = true;
        while busy {
            busy = false;
            for link in 0..self.links.len() {
                for side in 0..2 {
                    let end = &mut self.links[link][side];
                    if !end.over && !end.wire.is_empty() {
                        busy = true;
                        let got = Inbound::Bytes(std::mem::take(&mut end.wire));
                        let action = end.session.step(SessionEvent::Got { got, expired: false });
                        self.drive(link, side, action);
                    }
                }
            }
        }
    }

    fn close(&mut self, link: usize) {
        for side in 0..2 {
            let event = SessionEvent::Got { got: Inbound::Closed, expired: false };
            let action = self.links[link][side].session.step(event);
            self.drive(link, side, action);
        }
    }

    fn send(&mut self, node: usize, data: impl Into<Bytes>) {
        self.command(node, Command::Send { identity: None, data: data.into() });
        self.pump();
    }

    fn send_to(&mut self, node: usize, identity: Identity, data: impl Into<Bytes>) {
        self.command(node, Command::Send { identity: Some(identity), data: data.into() });
        self.pump();
    }

    fn recv(&mut self, node: usize) -> Option<Bytes> {
        self.nodes[node].received.pop_front()
    }
}

#[test]
fn integration_bind_sends_to_connect_with_buffering() {
    let mut net = Net::new();
    let server = net.socket(SocketBuilder::default());
    let client = net.socket(SocketBuilder::default());
    net.send(server, "hello");
    net.connect(client, server);
    assert_eq!(net.recv(client).as_deref(), Some(&b"hello"[..]));
}

#[test]
fn integration_round_robin_distributes_one_each() {
    let mut net = Net::new();
    let server = net.socket(SocketBuilder::default().send_mode(SendMode::RoundRobin));
    let c1 = net.socket(SocketBuilder::default());
    let c2 = net.socket(SocketBuilder::default());
    net.connect(c1, server);
    net.connect(c2, server);
    for i in 0..4u8 {
        net.send(server, vec![i]);
    }
    let mut seen: HashSet<u8> = HashSet::new();
    let mut count1 = 0;
    let mut count2 = 0;
    for _ in 0..2 {
        if let Some(m) = net.recv(c1) {
            seen.insert(m[0]);
            count1 += 1;
        }
        if let Some(m) = net.recv(c2) {
            seen.insert(m[0]);
            count2 += 1;
        }
    }
    assert_eq!(count1, 2);
    assert_eq!(count2, 2);
    assert_eq!(seen, HashSet::from([0, 1, 2, 3]));
    assert_eq!((net.recv(c1), net.recv(c2)), (None, None));
}

#[test]
fn integration_publish_sends_to_every_peer() {
    let mut net = Net::new();
    let server = net.socket(SocketBuilder::default().send_mode(SendMode::Publish));
    let c1 = net.socket(SocketBuilder::default());
    let c2 = net.socket(SocketBuilder::default());
    net.connect(c1, server);
    net.connect(c2, server);
    net.send(server, "news");
    assert_eq!(net.recv(c1).as_deref(), Some(&b"news"[..]));
    assert_eq!(net.recv(c2).as_deref(), Some(&b"news"[..]));
}

#[test]
fn integration_identity_routing_targets_one_peer() {
    let mut net = Net::new();
    let server = net.socket(SocketBuilder::default());
    let id1 = [1u8; 16];
    let id2 = [2u8; 16];
    let c1 = net.socket(SocketBuilder::default().identity(id1));
    let c2 = net.socket(SocketBuilder::default().identity(id2));
    net.connect(c1, server);
    net.connect(c2, server);
    net.send_to(server, id1, "for-one");
    net.send_to(server, id2, "for-two");
    assert_eq!(net.recv(c1).as_deref(), Some(&b"for-one"[..]));
    assert_eq!(net.recv(c2).as_deref(), Some(&b"for-two"[..]));
    assert_eq!((net.recv(c1), net.recv(c2)), (None, None));
}

#[test]
fn integration_at_least_once_delivers_and_acks() {
    let mut net = Net::new();
    let server = net.socket(
        SocketBuilder::default()
            .send_mode(SendMode::RoundRobin)
            .delivery_guarantee(DeliveryGuarantee::AtLeastOnce),
    );
    let client = net.socket(SocketBuilder::default());
    net.connect(client, server);
    net.send(server, "reliable");
    assert_eq!(net.recv(client).as_deref(), Some(&b"reliable"[..]));
    // The acknowledgement came back, so nothing is sent again.
    assert_eq!(net.nodes[server].timers.fire_due(RESEND_TIMEOUT).len(), 0);
    assert_eq!(net.recv(client), None);
}

#[test]
fn messages_iterator_yields_in_order() {
    assert_eq!(five_published(), vec![0, 1, 2, 3, 4]);
}

#[test]
fn messages_stream_yields_in_order() {
    assert_eq!(five_published(), vec![0, 1, 2, 3, 4]);
}

fn five_published() -> Vec<u8> {
    let mut net = Net::new();
    let server = net.socket(SocketBuilder::default().send_mode(SendMode::Publish));
    let client = net.socket(SocketBuilder::default());
    net.connect(client, server);
    for i in 0..5u8 {
        net.send(server, vec![i]);
    }
    (0..5).map(|_| net.recv(client).unwrap()[0]).collect()
}

#[test]
fn integration_connect_end_reconnects_after_server_restart() {
    let mut net = Net::new();
    let server1 = net.socket(SocketBuilder::default().send_mode(SendMode::Publish));
    let client = net.socket(SocketBuilder::default());
    let mut dial = DialLoop::new();

    assert_eq!(dial.step(DialEvent::Start, false), DialAction::Dial);
    assert_eq!(dial.step(DialEvent::Dialled(true), false), DialAction::Serve);
    let link = net.connect(client, server1);
    net.send(server1, "first");
    assert_eq!(net.recv(client).as_deref(), Some(&b"first"[..]));

    net.close(link);
    assert_eq!(dial.step(DialEvent::Served, false), DialAction::Delay);

    let server2 = net.socket(SocketBuilder::default().send_mode(SendMode::Publish));
    net.send(server2, "second");
    assert_eq!(dial.step(DialEvent::Delayed, false), DialAction::Dial);
    assert_eq!(dial.step(DialEvent::Dialled(true), false), DialAction::Serve);
    net.connect(client, server2);
    assert_eq!(net.recv(client).as_deref(), Some(&b"second"[..]));
}

#[test]
fn a_second_socket_of_the_same_identity_is_turned_away() {
    let mut net = Net::new();
    let server = net.socket(SocketBuilder::default().send_mode(SendMode::Publish));
    let c1 = net.socket(SocketBuilder::default().identity([3; 16]));
    let c2 = net.socket(SocketBuilder::default().identity([3; 16]));
    net.connect(c1, server);
    let second = net.connect(c2, server);
    assert!(net.links[second][1].over);
    net.send(server, "once");
    assert_eq!(net.recv(c1).as_deref(), Some(&b"once"[..]));
    assert_eq!(net.recv(c2), None);
}

// Bare messages --------------------------------------------------------------

fn received(wire: &[u8]) -> Vec<String> {
    let mut r = wire;
    let mut strings = Vec::new();
    while let Some(s) = read_string(&mut r) {
        strings.push(s);
    }
    strings
}

fn heartbeat_message() -> Vec<u8> {
    let msg_bytes = "aiomsg-heartbeat".as_bytes();
    let size_bytes = (msg_bytes.len() as i32).to_be_bytes();
    assert_eq!(size_bytes, [0x00, 0x00, 0x00, 0x10]);
    let mut wire = size_bytes.to_vec();
    wire.extend_from_slice(msg_bytes);
    wire
}

#[test]
fn test_read_msg() {
    let wire = heartbeat_message();
    assert_eq!(&received(&wire)[0], "aiomsg-heartbeat");
}

#[test]
fn test_read_msg2() {
    let wire = heartbeat_message();
    let mut r = &wire[..];
    assert_eq!(read_msg(&mut r).unwrap(), b"aiomsg-heartbeat");
    assert_eq!(read_msg(&mut r), None);
    let mut again = Vec::new();
    send_msg(&mut again, b"aiomsg-heartbeat");
    assert_eq!(again, wire);
}

#[test]
fn test_send_msg() {
    let mut wire = Vec::new();
    send_string(&mut wire, "hello there");
    assert_eq!(received(&wire), vec!["hello there"]);
}

#[test]
fn test_send_multiple_messages() {
    let msgs = ["msg1", "msg2", "msg3"];
    let mut wire = Vec::new();
    for msg in msgs {
        send_string(&mut wire, msg);
    }
    assert_eq!(received(&wire), msgs);
}

#[test]
fn test_send_big_message() {
    let big_string = "abc".repeat(1_000_000);
    let mut wire = Vec::new();
    send_string(&mut wire, &big_string);
    assert_eq!(received(&wire), vec![big_string]);
}
