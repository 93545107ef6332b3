//! The broker: the one owner of a socket's peers and of all routing. It takes commands and
//! answers each with the actions that follow from it.

use bytes::Bytes;
use std::collections::{HashMap, VecDeque};
use vstd::prelude::*;
use vstd::std_specs::hash::group_hash_axioms;
use crate::be::{be, key_of, lemma_be_bound, lemma_be_injective, pow256, push_be_u64, to_be};
use crate::buf::{bytes_as_slice, bytes_view};
use crate::config::{DeliveryGuarantee, SendMode};
use crate::ids::fresh_uuid;
use crate::protocol::{ack, data, data_req, encoded, sixteen, Envelope, Identity, Message, MsgId};

verus! {

broadcast use group_hash_axioms;

/// How often a message is sent again before it is given up.
pub const MAX_RETRIES: u32 = 5;

// The model ------------------------------------------------------------------

/// A message in flight that awaits its acknowledgement.
pub struct InFlight {
    pub to: Option<Seq<u8>>,
    pub payload: Seq<u8>,
    pub retries: nat,
}

/// The state of a broker.
pub struct BrokerState {
    pub mode: SendMode,
    pub guarantee: DeliveryGuarantee,
    /// The identities of the connected peers, in the order in which they connected.
    pub peers: Seq<Seq<u8>>,
    /// How many messages round-robin has handed out.
    pub cursor: nat,
    /// Messages sent while nobody was connected, with the peer each is meant for.
    pub buffer: Seq<(Option<Seq<u8>>, Seq<u8>)>,
    /// Messages in flight, by the number that their id stands for.
    pub pending: Map<u128, InFlight>,
    /// The first half of every message id.
    pub salt: Seq<u8>,
    /// The number in the second half of the next message id.
    pub next_id: nat,
}

/// Something that the broker has done.
pub enum Act {
    /// Send the envelope to the peer.
    Transmit { to: Seq<u8>, envelope: Seq<u8> },
    /// Hand the payload to the application.
    Deliver { from: Seq<u8>, payload: Seq<u8> },
    /// Start the resend timer of the message.
    Arm { msg_id: Seq<u8> },
    /// Stop the resend timer of the message.
    Cancel { msg_id: Seq<u8> },
    /// Tell the new connection whether it may stay.
    Accept { accepted: bool },
}

/// The number that an id stands for.
pub open spec fn key(id: Seq<u8>) -> u128 {
    be(id) as u128
}

/// `n + 1`, or zero behind `max`.
pub open spec fn wrap(n: nat, max: nat) -> nat {
    if n == max {
        0
    } else {
        n + 1
    }
}

/// A message id: the salt, then the counter in eight bytes.
pub open spec fn id_of(salt: Seq<u8>, counter: nat) -> Seq<u8> {
    salt + to_be(counter, 8)
}

/// Whether a message is acknowledged and retried. A published one never is.
pub open spec fn is_reliable(s: BrokerState, to: Option<Seq<u8>>) -> bool {
    s.guarantee == DeliveryGuarantee::AtLeastOnce && (to is Some || s.mode == SendMode::RoundRobin)
}

/// The next peer in turn, if any is connected, and the state behind that.
pub open spec fn picked(s: BrokerState) -> (BrokerState, Option<Seq<u8>>) {
    if s.peers.len() == 0 {
        (s, None)
    } else {
        (
            BrokerState { cursor: wrap(s.cursor, usize::MAX as nat), ..s },
            Some(s.peers[(s.cursor % s.peers.len()) as int]),
        )
    }
}

/// The next message id, and the state behind that.
pub open spec fn issued(s: BrokerState) -> (BrokerState, Seq<u8>) {
    (
        BrokerState { next_id: wrap(s.next_id, u64::MAX as nat), ..s },
        id_of(s.salt, s.next_id),
    )
}

/// An envelope goes to the peer named, or to the peers that the send mode picks.
pub open spec fn routed(s: BrokerState, to: Option<Seq<u8>>, envelope: Seq<u8>) -> (
    BrokerState,
    Seq<Act>,
) {
    match to {
        Some(id) => if s.peers.contains(id) {
            (s, seq![Act::Transmit { to: id, envelope }])
        } else {
            (s, Seq::empty())
        },
        None => match s.mode {
            SendMode::Publish => (
                s,
                s.peers.map_values(|id: Seq<u8>| Act::Transmit { to: id, envelope }),
            ),
            SendMode::RoundRobin => match picked(s) {
                (after, Some(id)) => (after, seq![Act::Transmit { to: id, envelope }]),
                (after, None) => (after, Seq::empty()),
            },
        },
    }
}

/// A message goes out: reliably, under a fresh id, with its timer started; or plainly.
pub open spec fn transmitted(
    s: BrokerState,
    to: Option<Seq<u8>>,
    payload: Seq<u8>,
    retries: nat,
) -> (BrokerState, Seq<Act>) {
    if is_reliable(s, to) {
        let (named, msg_id) = issued(s);
        let flying = BrokerState {
            pending: s.pending.insert(key(msg_id), InFlight { to, payload, retries }),
            ..named
        };
        let (after, acts) = routed(flying, to, encoded(Message::DataReq { msg_id, payload }));
        (after, seq![Act::Arm { msg_id }] + acts)
    } else {
        routed(s, to, encoded(Message::Data { payload }))
    }
}

/// A message is sent: at once, or later if nobody is connected.
pub open spec fn sent(s: BrokerState, to: Option<Seq<u8>>, payload: Seq<u8>) -> (
    BrokerState,
    Seq<Act>,
) {
    if s.peers.len() == 0 {
        (BrokerState { buffer: s.buffer.push((to, payload)), ..s }, Seq::empty())
    } else {
        transmitted(s, to, payload, MAX_RETRIES as nat)
    }
}

/// Messages are sent one after the other.
pub open spec fn sent_all(s: BrokerState, items: Seq<(Option<Seq<u8>>, Seq<u8>)>) -> (
    BrokerState,
    Seq<Act>,
)
    decreases items.len(),
{
    if items.len() == 0 {
        (s, Seq::empty())
    } else {
        let (before, acts) = sent_all(s, items.drop_last());
        let (after, more) = sent(before, items.last().0, items.last().1);
        (after, acts + more)
    }
}

/// A peer connects. One whose identity is connected already is turned away; with any other,
/// what was buffered goes out.
pub open spec fn connected(s: BrokerState, id: Seq<u8>) -> (BrokerState, Seq<Act>) {
    if s.peers.contains(id) {
        (s, seq![Act::Accept { accepted: false }])
    } else {
        let joined = BrokerState { peers: s.peers.push(id), buffer: Seq::empty(), ..s };
        let (after, acts) = sent_all(joined, s.buffer);
        (after, seq![Act::Accept { accepted: true }] + acts)
    }
}

/// A peer is gone; the others keep their order.
pub open spec fn disconnected(s: BrokerState, id: Seq<u8>) -> BrokerState {
    if s.peers.contains(id) {
        BrokerState { peers: s.peers.remove(s.peers.index_of(id)), ..s }
    } else {
        s
    }
}

/// An envelope arrived. Data is delivered; a reliable message is acknowledged as well, to
/// the peer it came from; an acknowledgement ends the wait for it.
pub open spec fn received(s: BrokerState, from: Seq<u8>, m: Message) -> (BrokerState, Seq<Act>) {
    match m {
        Message::Data { payload } => (s, seq![Act::Deliver { from, payload }]),
        Message::DataReq { msg_id, payload } => {
            let (after, acts) = routed(s, Some(from), encoded(Message::Ack { msg_id }));
            (after, seq![Act::Deliver { from, payload }] + acts)
        },
        Message::Ack { msg_id } => if s.pending.contains_key(key(msg_id)) {
            (
                BrokerState { pending: s.pending.remove(key(msg_id)), ..s },
                seq![Act::Cancel { msg_id }],
            )
        } else {
            (s, Seq::empty())
        },
        Message::Hello { version, identity } => (s, Seq::empty()),
        Message::Heartbeat => (s, Seq::empty()),
    }
}

/// A resend timer ran out. If the message is still in flight it is sent again, under a new
/// id and with one retry less; if none is left it is given up; if nobody is connected it is
/// buffered.
pub open spec fn timed_out(s: BrokerState, msg_id: Seq<u8>) -> (BrokerState, Seq<Act>) {
    if !s.pending.contains_key(key(msg_id)) {
        (s, Seq::empty())
    } else {
        let m = s.pending[key(msg_id)];
        let without = BrokerState { pending: s.pending.remove(key(msg_id)), ..s };
        if m.retries == 0 {
            (without, Seq::empty())
        } else if s.peers.len() == 0 {
            (BrokerState { buffer: s.buffer.push((m.to, m.payload)), ..without }, Seq::empty())
        } else {
            transmitted(without, m.to, m.payload, (m.retries - 1) as nat)
        }
    }
}

/// The largest payload that an envelope can carry within one allocation.
pub open spec fn fits(payload: Seq<u8>) -> bool {
    payload.len() + 17 <= isize::MAX
}

// The broker -----------------------------------------------------------------

/// Something to do on the broker's behalf.
pub enum Action {
    Transmit { to: Identity, envelope: Bytes },
    Deliver { from: Identity, payload: Bytes },
    Arm { msg_id: MsgId },
    Cancel { msg_id: MsgId },
    Accept { accepted: bool },
}

impl View for Action {
    type V = Act;

    open spec fn view(&self) -> Act {
        match self {
            Action::Transmit { to, envelope } => Act::Transmit {
                to: to@,
                envelope: bytes_view(*envelope),
            },
            Action::Deliver { from, payload } => Act::Deliver {
                from: from@,
                payload: bytes_view(*payload),
            },
            Action::Arm { msg_id } => Act::Arm { msg_id: msg_id@ },
            Action::Cancel { msg_id } => Act::Cancel { msg_id: msg_id@ },
            Action::Accept { accepted } => Act::Accept { accepted: *accepted },
        }
    }
}

/// What some actions are.
pub open spec fn acts_of(actions: Seq<Action>) -> Seq<Act> {
    actions.map_values(|a: Action| a@)
}

/// The identity in an option.
pub open spec fn target(to: Option<Identity>) -> Option<Seq<u8>> {
    match to {
        Some(id) => Some(id@),
        None => None,
    }
}

/// An input of the broker.
#[allow(inconsistent_fields)]
pub enum Command<W> {
    /// The application sends; an identity means to that peer only.
    Send { identity: Option<Identity>, data: Bytes },
    /// A connection has its peer's identity; `writer` leads to it.
    ConnectionUp { identity: Identity, writer: W },
    /// A connection ended.
    ConnectionDown { identity: Identity },
    /// An envelope arrived.
    Received { identity: Identity, envelope: Envelope },
    /// A resend timer ran out.
    ResendTimeout { msg_id: MsgId },
    /// Stop.
    Close,
}

struct Pending {
    identity: Option<Identity>,
    data: Bytes,
    retries: u32,
}

impl Pending {
    spec fn model(self) -> InFlight {
        InFlight {
            to: target(self.identity),
            payload: bytes_view(self.data),
            retries: self.retries as nat,
        }
    }
}

/// The owner of a socket's peers, each reached through a `W`.
pub struct Broker<W> {
    send_mode: SendMode,
    delivery: DeliveryGuarantee,
    conns: HashMap<u128, W>,
    order: Vec<Identity>,
    rr_cursor: usize,
    buffer: VecDeque<(Option<Identity>, Bytes)>,
    pending: HashMap<u128, Pending>,
    salt: [u8; 8],
    next_id: u64,
}

impl<W> View for Broker<W> {
    type V = BrokerState;

    closed spec fn view(&self) -> BrokerState {
        BrokerState {
            mode: self.send_mode,
            guarantee: self.delivery,
            peers: self.order@.map_values(|id: Identity| id@),
            cursor: self.rr_cursor as nat,
            buffer: self.buffer@.map_values(
                |item: (Option<Identity>, Bytes)| (target(item.0), bytes_view(item.1)),
            ),
            pending: self.pending@.map_values(|p: Pending| p.model()),
            salt: self.salt@,
            next_id: self.next_id as nat,
        }
    }
}

/// The eight bytes of `s` from the start.
fn eight(s: &[u8; 16]) -> (r: [u8; 8])
    ensures
        r@ == s@.take(8),
{
    let mut out: [u8; 8] = [0u8;8];
    let mut i: usize = 0;
    while i < 8
        invariant
            i <= 8,
            forall|j: int| 0 <= j < i ==> out[j] == s@[j],
        decreases 8 - i,
    {
        out[i] = s[i];
        i = i + 1;
    }
    assert(out@ =~= s@.take(8));
    out
}

/// Different identities stand for different numbers.
proof fn lemma_key(a: Seq<u8>, b: Seq<u8>)
    requires
        a.len() == 16,
        b.len() == 16,
    ensures
        key(a) == be(a),
        key(a) == key(b) ==> a == b,
{
    reveal_with_fuel(pow256, 17);
    lemma_be_bound(a);
    lemma_be_bound(b);
    if key(a) == key(b) {
        lemma_be_injective(a, b);
    }
}

impl<W> Broker<W> {
    /// Every peer has a writer and the other way round, no peer stands twice, and whatever
    /// waits to be sent can be.
    pub closed spec fn wf(self) -> bool {
        &&& forall|i: int|
            0 <= i < self.order@.len() ==> self.conns@.contains_key(
                key((#[trigger] self.order@[i])@),
            )
        &&& forall|k: u128| #[trigger]
            self.conns@.contains_key(k) ==> exists|i: int|
                0 <= i < self.order@.len() && key((#[trigger] self.order@[i])@) == k
        &&& forall|i: int, j: int|
            0 <= i < j < self.order@.len() ==> (#[trigger] self.order@[i])@ != (
            #[trigger] self.order@[j])@
        &&& forall|i: int|
            0 <= i < self.buffer@.len() ==> fits(bytes_view((#[trigger] self.buffer@[i]).1))
        &&& forall|k: u128| #[trigger]
            self.pending@.contains_key(k) ==> fits(bytes_view(self.pending@[k].data))
    }

    /// No peer is connected twice, and identities and salt have their width.
    pub proof fn lemma_peers_distinct(self)
        requires
            self.wf(),
        ensures
            self@.peers.no_duplicates(),
            forall|i: int| 0 <= i < self@.peers.len() ==> (#[trigger] self@.peers[i]).len() == 16,
            self@.salt.len() == 8,
    {
        assert forall|i: int, j: int|
            0 <= i < self@.peers.len() && 0 <= j < self@.peers.len() && i != j implies self@.peers[i]
            != self@.peers[j] by {
            assert(self@.peers[i] == self.order@[i]@);
            assert(self@.peers[j] == self.order@[j]@);
        }
    }

    /// The ways to the peers, by the number that each identity stands for.
    pub closed spec fn writers(self) -> Map<u128, W> {
        self.conns@
    }

    /// A broker with no peers, whose message ids start with the first eight bytes of a random
    /// UUID. But for its version, which ones is left to chance.
    pub fn new(send_mode: SendMode, delivery: DeliveryGuarantee) -> (r: Self)
        ensures
            r.wf(),
            r@ == (BrokerState {
                mode: send_mode,
                guarantee: delivery,
                peers: Seq::empty(),
                cursor: 0,
                buffer: Seq::empty(),
                pending: Map::empty(),
                salt: r@.salt,
                next_id: 0,
            }),
            r@.salt.len() == 8,
            r@.salt[6] & 0xf0 == 0x40,
            r.writers() == Map::<u128, W>::empty(),
    {
        let salt: [u8; 16] = fresh_uuid();
        Self::with_salt(send_mode, delivery, &salt)
    }

    /// A broker with no peers, whose message ids start with the first half of `salt`.
    pub fn with_salt(send_mode: SendMode, delivery: DeliveryGuarantee, salt: &[u8; 16]) -> (r: Self)
        ensures
            r.wf(),
            r@ == (BrokerState {
                mode: send_mode,
                guarantee: delivery,
                peers: Seq::empty(),
                cursor: 0,
                buffer: Seq::empty(),
                pending: Map::empty(),
                salt: salt@.take(8),
                next_id: 0,
            }),
            r.writers() == Map::<u128, W>::empty(),
    {
        let r = Broker {
            send_mode,
            delivery,
            conns: HashMap::new(),
            order: Vec::new(),
            rr_cursor: 0,
            buffer: VecDeque::new(),
            pending: HashMap::new(),
            salt: eight(salt),
            next_id: 0,
        };
        assert(r@.peers =~= Seq::<Seq<u8>>::empty());
        assert(r@.buffer =~= Seq::<(Option<Seq<u8>>, Seq<u8>)>::empty());
        assert(r@.pending =~= Map::<u128, InFlight>::empty());
        r
    }

    /// A peer is connected if and only if there is a writer for it.
    proof fn lemma_peer(self, id: Seq<u8>)
        requires
            self.wf(),
            id.len() == 16,
        ensures
            self.conns@.contains_key(key(id)) == self@.peers.contains(id),
    {
        if self@.peers.contains(id) {
            let i = self@.peers.index_of(id);
            assert(self@.peers[i] == self.order@[i]@);
        }
        if self.conns@.contains_key(key(id)) {
            let i = choose|i: int|
                0 <= i < self.order@.len() && key((#[trigger] self.order@[i])@) == key(id);
            lemma_key(self.order@[i]@, id);
            assert(self@.peers[i] == id);
        }
    }

    /// Nobody is connected if and only if there is no writer.
    proof fn lemma_nobody(self)
        requires
            self.wf(),
        ensures
            self.conns@.is_empty() == (self@.peers.len() == 0),
    {
        if self.order@.len() > 0 {
            assert(self.conns@.contains_key(key(self.order@[0]@)));
        } else {
            assert forall|k: u128| !self.conns@.dom().contains(k) by {
                assert(!self.conns@.contains_key(k));
            }
            assert(self.conns@.dom() =~= Set::empty());
            assert(self.conns@ =~= Map::empty());
        }
    }

    /// The next message id, which is this broker's salt and a counter.
    pub fn next_msg_id(&mut self) -> (r: MsgId)
        requires
            old(self).wf(),
        ensures
            final(self).wf(),
            (final(self)@, r@) == issued(old(self)@),
            final(self).writers() == old(self).writers(),
    {
        let mut id: Vec<u8> = Vec::new();
        id.extend_from_slice(self.salt.as_slice());
        push_be_u64(&mut id, self.next_id);
        self.next_id = self.next_id.wrapping_add(1);
        proof {
            crate::be::lemma_to_be_len(old(self)@.next_id, 8);
            assert(id@ =~= id_of(old(self)@.salt, old(self)@.next_id));
            assert(id@.subrange(0, 16) =~= id@);
        }
        sixteen(id.as_slice(), 0)
    }

    /// The peer whose turn it is.
    pub fn next_round_robin(&mut self) -> (r: Option<Identity>)
        requires
            old(self).wf(),
        ensures
            final(self).wf(),
            final(self).writers() == old(self).writers(),
            (final(self)@, target(r)) == picked(old(self)@),
    {
        if self.order.len() == 0 {
            return None;
        }
        let id: Identity = self.order[self.rr_cursor % self.order.len()];
        self.rr_cursor = self.rr_cursor.wrapping_add(1);
        Some(id)
    }

    /// Sends an envelope on its way.
    fn route(&mut self, to: Option<Identity>, envelope: Bytes, actions: &mut Vec<Action>)
        requires
            old(self).wf(),
        ensures
            final(self).wf(),
            final(self).writers() == old(self).writers(),
            ({
                let (after, acts) = routed(old(self)@, target(to), bytes_view(envelope));
                final(self)@ == after && acts_of(final(actions)@) == acts_of(old(actions)@) + acts
            }),
    {
        let ghost before = acts_of(actions@);
        match to {
            Some(id) => {
                let k: u128 = key_of(&id);
                proof {
                    lemma_key(id@, id@);
                    self.lemma_peer(id@);
                }
                if self.conns.contains_key(&k) {
                    actions.push(Action::Transmit { to: id, envelope });
                }
            },
            None => match self.send_mode {
                SendMode::Publish => {
                    let mut i: usize = 0;
                    let ghost acts = routed(self@, None, bytes_view(envelope)).1;
                    assert(acts_of(actions@) =~= before + acts.take(0));
                    while i < self.order.len()
                        invariant
                            i <= self.order@.len(),
                            self.wf(),
                            *self == *old(self),
                            self@.mode == SendMode::Publish,
                            acts == routed(self@, None, bytes_view(envelope)).1,
                            acts_of(actions@) == before + acts.take(i as int),
                        decreases self.order@.len() - i,
                    {
                        let ghost had = actions@;
                        actions.push(
                            Action::Transmit { to: self.order[i], envelope: envelope.clone() },
                        );
                        assert(actions@.last()@ == acts[i as int]);
                        assert(acts_of(actions@) =~= acts_of(had).push(acts[i as int]));
                        i = i + 1;
                        assert(acts_of(actions@) =~= before + acts.take(i as int));
                    }
                    assert(acts.take(i as int) =~= acts);
                },
                SendMode::RoundRobin => {
                    match self.next_round_robin() {
                        Some(id) => {
                            let k: u128 = key_of(&id);
                            proof {
                                lemma_key(id@, id@);
                                self.lemma_peer(id@);
                            }
                            if self.conns.contains_key(&k) {
                                actions.push(Action::Transmit { to: id, envelope });
                            }
                        },
                        None => {},
                    }
                },
            },
        }
        assert(acts_of(actions@) =~= before + routed(
            old(self)@,
            target(to),
            bytes_view(envelope),
        ).1);
    }

    /// Puts a message in its envelope and sends it on its way.
    fn transmit(
        &mut self,
        to: Option<Identity>,
        payload: Bytes,
        retries: u32,
        actions: &mut Vec<Action>,
    )
        requires
            old(self).wf(),
            fits(bytes_view(payload)),
        ensures
            final(self).wf(),
            final(self).writers() == old(self).writers(),
            ({
                let (after, acts) = transmitted(
                    old(self)@,
                    target(to),
                    bytes_view(payload),
                    retries as nat,
                );
                final(self)@ == after && acts_of(final(actions)@) == acts_of(old(actions)@) + acts
            }),
    {
        let ghost before = acts_of(actions@);
        let at_least_once: bool = self.delivery == DeliveryGuarantee::AtLeastOnce && (to.is_some()
            || self.send_mode == SendMode::RoundRobin);
        if at_least_once {
            let msg_id: MsgId = self.next_msg_id();
            let envelope: Bytes = data_req(&msg_id, bytes_as_slice(&payload));
            actions.push(Action::Arm { msg_id });
            assert(acts_of(actions@) =~= before.push(Act::Arm { msg_id: msg_id@ }));
            let k: u128 = key_of(&msg_id);
            proof {
                lemma_key(msg_id@, msg_id@);
            }
            let ghost s = self@;
            let p = Pending { identity: to, data: payload, retries };
            self.pending.insert(k, p);
            assert(self@.pending =~= s.pending.insert(k, p.model()));
            self.route(to, envelope, actions);
            assert(acts_of(actions@) =~= before + transmitted(
                old(self)@,
                target(to),
                bytes_view(payload),
                retries as nat,
            ).1);
        } else {
            let envelope: Bytes = data(bytes_as_slice(&payload));
            self.route(to, envelope, actions);
        }
    }

    fn send_into(&mut self, to: Option<Identity>, payload: Bytes, actions: &mut Vec<Action>)
        requires
            old(self).wf(),
            fits(bytes_view(payload)),
        ensures
            final(self).wf(),
            final(self).writers() == old(self).writers(),
            ({
                let (after, acts) = sent(old(self)@, target(to), bytes_view(payload));
                final(self)@ == after && acts_of(final(actions)@) == acts_of(old(actions)@) + acts
            }),
    {
        proof {
            self.lemma_nobody();
        }
        if self.conns.is_empty() {
            let ghost s = self@;
            self.buffer.push_back((to, payload));
            assert(self@.buffer =~= s.buffer.push((target(to), bytes_view(payload))));
            assert(acts_of(actions@) =~= acts_of(actions@) + Seq::<Act>::empty());
            return;
        }
        self.transmit(to, payload, MAX_RETRIES, actions);
    }

    /// The application sends a message, to one peer or as the send mode says.
    pub fn handle_send(&mut self, identity: Option<Identity>, data: Bytes) -> (r: Vec<Action>)
        requires
            old(self).wf(),
            fits(bytes_view(data)),
        ensures
            final(self).wf(),
            final(self).writers() == old(self).writers(),
            (final(self)@, acts_of(r@)) == sent(old(self)@, target(identity), bytes_view(data)),
    {
        let mut actions: Vec<Action> = Vec::new();
        assert(acts_of(actions@) =~= Seq::<Act>::empty());
        self.send_into(identity, data, &mut actions);
        assert(acts_of(actions@) =~= sent(old(self)@, target(identity), bytes_view(data)).1);
        actions
    }

    /// A connection is up, with its peer's identity known.
    pub fn handle_up(&mut self, identity: Identity, writer: W) -> (r: Vec<Action>)
        requires
            old(self).wf(),
        ensures
            final(self).wf(),
            (final(self)@, acts_of(r@)) == connected(old(self)@, identity@),
            final(self).writers() == if old(self)@.peers.contains(identity@) {
                old(self).writers()
            } else {
                old(self).writers().insert(key(identity@), writer)
            },
    {
        let mut actions: Vec<Action> = Vec::new();
        let k: u128 = key_of(&identity);
        proof {
            lemma_key(identity@, identity@);
            self.lemma_peer(identity@);
        }
        if self.conns.contains_key(&k) {
            actions.push(Action::Accept { accepted: false });
            assert(acts_of(actions@) =~= seq![Act::Accept { accepted: false }]);
            return actions;
        }
        let ghost s = self@;
        self.conns.insert(k, writer);
        self.order.push(identity);
        actions.push(Action::Accept { accepted: true });
        let ghost accepted = seq![Act::Accept { accepted: true }];
        assert(acts_of(actions@) =~= accepted);
        let mut buffered: VecDeque<(Option<Identity>, Bytes)> = VecDeque::new();
        let ghost items = s.buffer;
        let ghost waiting = self.buffer@;
        buffered.append(&mut self.buffer);
        assert(buffered@ =~= waiting);
        proof {
            assert(self.wf()) by {
                let o = *old(self);
                assert forall|i: int| 0 <= i < self.order@.len() implies self.conns@.contains_key(
                    key((#[trigger] self.order@[i])@),
                ) by {
                    if i < o.order@.len() {
                        assert(self.order@[i] == o.order@[i]);
                    }
                }
                assert forall|x: u128| #[trigger] self.conns@.contains_key(x) implies exists|
                    i: int,
                |
                    0 <= i < self.order@.len() && key((#[trigger] self.order@[i])@) == x by {
                    if x == k {
                        assert(self.order@[o.order@.len() as int]@ == identity@);
                    } else {
                        assert(o.conns@.contains_key(x));
                        let i = choose|i: int|
                            0 <= i < o.order@.len() && key((#[trigger] o.order@[i])@) == x;
                        assert(self.order@[i] == o.order@[i]);
                    }
                }
                assert forall|i: int, j: int| 0 <= i < j < self.order@.len() implies (
                #[trigger] self.order@[i])@ != (#[trigger] self.order@[j])@ by {
                    assert(self.order@[i] == o.order@[i]);
                    if j == o.order@.len() {
                        assert(s.peers[i] == o.order@[i]@);
                    } else {
                        assert(self.order@[j] == o.order@[j]);
                    }
                }
            }
            assert(self@.peers =~= s.peers.push(identity@));
            assert(self@.buffer =~= Seq::empty());
        }
        let ghost joined = BrokerState { peers: s.peers.push(identity@), buffer: Seq::empty(), ..s };
        assert(self@ == joined);
        let ghost mut done: nat = 0;
        assert(items.take(0) =~= Seq::empty());
        assert(acts_of(actions@) =~= accepted + sent_all(joined, items.take(0)).1);
        while buffered.len() > 0
            invariant
                self.wf(),
                done <= items.len(),
                waiting.len() == items.len(),
                items == waiting.map_values(
                    |item: (Option<Identity>, Bytes)| (target(item.0), bytes_view(item.1)),
                ),
                forall|i: int|
                    0 <= i < waiting.len() ==> fits(bytes_view((#[trigger] waiting[i]).1)),
                buffered@ == waiting.skip(done as int),
                self@ == sent_all(joined, items.take(done as int)).0,
                acts_of(actions@) == accepted + sent_all(joined, items.take(done as int)).1,
                self.writers() == old(self).writers().insert(k, writer),
            decreases buffered@.len(),
        {
            assert(buffered@[0] == waiting[done as int]);
            match buffered.pop_front() {
                None => {},
                Some((to, payload)) => {
                    self.send_into(to, payload, &mut actions);
                    proof {
                        let next = items.take(done as int + 1);
                        assert(next.drop_last() =~= items.take(done as int));
                        assert(next.last() == (target(to), bytes_view(payload)));
                        done = done + 1;
                        assert(acts_of(actions@) =~= accepted + sent_all(joined, next).1);
                        assert(buffered@ =~= waiting.skip(done as int));
                    }
                },
            }
        }
        assert(items.take(done as int) =~= items);
        actions
    }

    /// A connection is down.
    pub fn handle_down(&mut self, identity: Identity)
        requires
            old(self).wf(),
        ensures
            final(self).wf(),
            final(self)@ == disconnected(old(self)@, identity@),
            final(self).writers() == old(self).writers().remove(key(identity@)),
    {
        let k: u128 = key_of(&identity);
        proof {
            lemma_key(identity@, identity@);
            self.lemma_peer(identity@);
        }
        let ghost s = self@;
        self.conns.remove(&k);
        let mut i: usize = 0;
        while i < self.order.len()
            invariant
                i <= self.order@.len(),
                k == key(identity@),
                forall|j: int| 0 <= j < i ==> (#[trigger] self.order@[j])@ != identity@,
                self.order == old(self).order,
                self.conns@ == old(self).conns@.remove(k),
                self.buffer == old(self).buffer,
                self.pending == old(self).pending,
                self.send_mode == old(self).send_mode,
                self.delivery == old(self).delivery,
                self.rr_cursor == old(self).rr_cursor,
                self.salt == old(self).salt,
                self.next_id == old(self).next_id,
                old(self).wf(),
                s == old(self)@,
            decreases self.order@.len() - i,
        {
            let other: u128 = key_of(&self.order[i]);
            proof {
                lemma_key(self.order@[i as int]@, identity@);
                lemma_key(identity@, identity@);
            }
            if other == k {
                let ghost o = *old(self);
                self.order.remove(i);
                proof {
                    assert(o.order@[i as int]@ == identity@);
                    assert(s.peers[i as int] == identity@);
                    assert(s.peers.contains(identity@));
                    let at = s.peers.index_of(identity@);
                    assert(s.peers[at] == o.order@[at]@);
                    assert(at == i);
                    assert(self@.peers =~= s.peers.remove(i as int));
                    assert forall|a: int| 0 <= a < self.order@.len() implies {
                        &&& #[trigger] self.order@[a] == o.order@[if a < i {
                            a
                        } else {
                            a + 1
                        }]
                        &&& self.conns@.contains_key(key(self.order@[a]@))
                    } by {
                        let b = if a < i {
                            a
                        } else {
                            a + 1
                        };
                        assert(self.order@[a] == o.order@[b]);
                        assert(o.order@[b]@ != identity@);
                        lemma_key(o.order@[b]@, identity@);
                    }
                    assert forall|x: u128| #[trigger] self.conns@.contains_key(x) implies exists|
                        a: int,
                    |
                        0 <= a < self.order@.len() && key((#[trigger] self.order@[a])@) == x by {
                        assert(o.conns@.contains_key(x));
                        let b = choose|b: int|
                            0 <= b < o.order@.len() && key((#[trigger] o.order@[b])@) == x;
                        assert(b != i);
                        let a = if b < i {
                            b
                        } else {
                            b - 1
                        };
                        assert(self.order@[a] == o.order@[b]);
                    }
                    assert forall|a: int, b: int| 0 <= a < b < self.order@.len() implies (
                    #[trigger] self.order@[a])@ != (#[trigger] self.order@[b])@ by {
                        let p = if a < i {
                            a
                        } else {
                            a + 1
                        };
                        let q = if b < i {
                            b
                        } else {
                            b + 1
                        };
                        assert(self.order@[a] == o.order@[p]);
                        assert(self.order@[b] == o.order@[q]);
                    }
                }
                return;
            }
            i = i + 1;
        }
        proof {
            let o = *old(self);
            assert(!s.peers.contains(identity@)) by {
                if s.peers.contains(identity@) {
                    let at = s.peers.index_of(identity@);
                    assert(s.peers[at] == o.order@[at]@);
                }
            }
            o.lemma_peer(identity@);
            assert(self.conns@ =~= o.conns@);
        }
    }

    /// An envelope arrived from a peer.
    pub fn handle_received(&mut self, identity: Identity, envelope: Envelope) -> (r: Vec<Action>)
        requires
            old(self).wf(),
        ensures
            final(self).wf(),
            final(self).writers() == old(self).writers(),
            (final(self)@, acts_of(r@)) == received(old(self)@, identity@, envelope@),
    {
        let mut actions: Vec<Action> = Vec::new();
        assert(acts_of(actions@) =~= Seq::<Act>::empty());
        match envelope {
            Envelope::Data { payload } => {
                actions.push(Action::Deliver { from: identity, payload });
            },
            Envelope::DataReq { msg_id, payload } => {
                actions.push(Action::Deliver { from: identity, payload });
                let ghost first = acts_of(actions@);
                assert(first =~= seq![
                    Act::Deliver { from: identity@, payload: bytes_view(payload) },
                ]);
                self.route(Some(identity), ack(&msg_id), &mut actions);
            },
            Envelope::Ack { msg_id } => {
                let k: u128 = key_of(&msg_id);
                proof {
                    lemma_key(msg_id@, msg_id@);
                }
                let ghost s = self@;
                if let Some(_) = self.pending.remove(&k) {
                    actions.push(Action::Cancel { msg_id });
                    assert(self@.pending =~= s.pending.remove(k));
                } else {
                    assert(self@.pending =~= s.pending);
                }
            },
            Envelope::Hello { .. } => {},
            Envelope::Heartbeat => {},
        }
        assert(acts_of(actions@) =~= received(old(self)@, identity@, envelope@).1);
        actions
    }

    /// The resend timer of a message ran out.
    pub fn handle_resend(&mut self, msg_id: MsgId) -> (r: Vec<Action>)
        requires
            old(self).wf(),
        ensures
            final(self).wf(),
            final(self).writers() == old(self).writers(),
            (final(self)@, acts_of(r@)) == timed_out(old(self)@, msg_id@),
    {
        let mut actions: Vec<Action> = Vec::new();
        assert(acts_of(actions@) =~= Seq::<Act>::empty());
        let k: u128 = key_of(&msg_id);
        proof {
            lemma_key(msg_id@, msg_id@);
        }
        let ghost s = self@;
        match self.pending.remove(&k) {
            None => {
                assert(self@.pending =~= s.pending);
            },
            Some(p) => {
                assert(self@.pending =~= s.pending.remove(k));
                assert(s.pending[k] == p.model());
                proof {
                    self.lemma_nobody();
                }
                if p.retries == 0 {
                    return actions;
                }
                if self.conns.is_empty() {
                    let ghost b = self@.buffer;
                    self.buffer.push_back((p.identity, p.data));
                    assert(self@.buffer =~= b.push((target(p.identity), bytes_view(p.data))));
                    return actions;
                }
                self.transmit(p.identity, p.data, p.retries - 1, &mut actions);
                assert(acts_of(actions@) =~= timed_out(old(self)@, msg_id@).1);
            },
        }
        actions
    }

    /// The way to a connected peer.
    pub fn writer(&self, identity: &Identity) -> (r: Option<&W>)
        requires
            self.wf(),
        ensures
            match r {
                Some(w) => self@.peers.contains(identity@) && *w == self.writers()[key(identity@)],
                None => !self@.peers.contains(identity@),
            },
    {
        let k: u128 = key_of(identity);
        proof {
            lemma_key(identity@, identity@);
            self.lemma_peer(identity@);
        }
        self.conns.get(&k)
    }
}

/// The state and the acts that a command leads to; none for the one that stops the broker.
pub open spec fn stepped<W>(s: BrokerState, command: Command<W>) -> Option<
    (BrokerState, Seq<Act>),
> {
    match command {
        Command::Send { identity, data } => Some(sent(s, target(identity), bytes_view(data))),
        Command::ConnectionUp { identity, writer } => Some(connected(s, identity@)),
        Command::ConnectionDown { identity } => Some((disconnected(s, identity@), Seq::empty())),
        Command::Received { identity, envelope } => Some(received(s, identity@, envelope@)),
        Command::ResendTimeout { msg_id } => Some(timed_out(s, msg_id@)),
        Command::Close => None,
    }
}

impl<W> Broker<W> {
    /// Carries out one command: the actions that follow, or `None` when told to stop.
    pub fn step(&mut self, command: Command<W>) -> (r: Option<Vec<Action>>)
        requires
            old(self).wf(),
            command matches Command::Send { identity, data } ==> fits(bytes_view(data)),
        ensures
            final(self).wf(),
            match r {
                Some(actions) => stepped(old(self)@, command) == Some(
                    (final(self)@, acts_of(actions@)),
                ),
                None => stepped(old(self)@, command) is None && final(self)@ == old(self)@,
            },
            final(self).writers() == (match command {
                Command::ConnectionUp { identity, writer } => if old(self)@.peers.contains(
                    identity@,
                ) {
                    old(self).writers()
                } else {
                    old(self).writers().insert(key(identity@), writer)
                },
                Command::ConnectionDown { identity } => old(self).writers().remove(key(identity@)),
                _ => old(self).writers(),
            }),
    {
        match command {
            Command::Send { identity, data } => Some(self.handle_send(identity, data)),
            Command::ConnectionUp { identity, writer } => Some(self.handle_up(identity, writer)),
            Command::ConnectionDown { identity } => {
                self.handle_down(identity);
                let actions: Vec<Action> = Vec::new();
                assert(acts_of(actions@) =~= Seq::<Act>::empty());
                Some(actions)
            },
            Command::Received { identity, envelope } => Some(
                self.handle_received(identity, envelope),
            ),
            Command::ResendTimeout { msg_id } => Some(self.handle_resend(msg_id)),
            Command::Close => None,
        }
    }
}

} // verus!
