//! Peers that are reached by bare messages: where to connect, whom to send to, when to try
//! again.

use vstd::prelude::*;
use crate::be::{be, key_of, lemma_be_injective};
use crate::config::SendMode;
use crate::protocol::Identity;

verus! {

/// Where a peer is reached.
pub struct PeerConfig {
    pub host: String,
    pub port: u32,
    pub ssl_context: Option<u32>,
}

impl PeerConfig {
    pub fn new(host: &str, port: u32) -> (r: Self)
        ensures
            r.host@ == host@,
            r.port == port,
            r.ssl_context is None,
    {
        PeerConfig { host: host.to_string(), port, ssl_context: None }
    }

    pub fn host(&mut self, host: &str) -> (r: &mut Self)
        ensures
            r.host@ == host@,
            r.port == old(self).port,
            r.ssl_context == old(self).ssl_context,
            *final(self) == *final(r),
    {
        self.host = host.to_string();
        self
    }

    pub fn port(&mut self, port: u32) -> (r: &mut Self)
        ensures
            *r == (PeerConfig { port, ..*old(self) }),
            *final(self) == *final(r),
    {
        self.port = port;
        self
    }

    pub fn ssl_context(&mut self, ctx: u32) -> (r: &mut Self)
        ensures
            *r == (PeerConfig { ssl_context: Some(ctx), ..*old(self) }),
            *final(self) == *final(r),
    {
        self.ssl_context = Some(ctx);
        self
    }
}

// Whom to send to ------------------------------------------------------------

/// Something that happened, of which the hub takes note.
pub enum Event<S> {
    /// A peer said who it is; `stream` leads to it.
    NewPeer { name: Identity, stream: S },
    /// A peer is gone.
    RemovePeer { name: Identity },
    /// A message is to be sent.
    Message { from: Identity, to: Vec<Identity>, msg: Vec<u8> },
}

/// The state of a hub: its peers in the order in which they joined, and how many messages
/// round-robin has handed out.
pub struct HubState {
    pub mode: SendMode,
    pub names: Seq<Seq<u8>>,
    pub cursor: nat,
}

/// What follows from an event.
pub enum HubStep {
    /// Start writing to this peer.
    Start,
    /// Send the message to each of these.
    SendTo(Vec<Identity>),
    /// Nothing.
    Nothing,
}

/// The peers that the next message goes to: all, or the one whose turn it is.
pub open spec fn receivers(s: HubState) -> Seq<Seq<u8>> {
    match s.mode {
        SendMode::Publish => s.names,
        SendMode::RoundRobin => if s.names.len() == 0 {
            Seq::empty()
        } else {
            seq![s.names[(s.cursor % s.names.len()) as int]]
        },
    }
}

/// The peers of a message-passing socket, each reached through an `S`.
pub struct Hub<S> {
    mode: SendMode,
    names: Vec<Identity>,
    streams: Vec<S>,
    cursor: usize,
}

impl<S> View for Hub<S> {
    type V = HubState;

    closed spec fn view(&self) -> HubState {
        HubState {
            mode: self.mode,
            names: self.names@.map_values(|id: Identity| id@),
            cursor: self.cursor as nat,
        }
    }
}

/// The views of some identities.
pub open spec fn names_of(ids: Seq<Identity>) -> Seq<Seq<u8>> {
    ids.map_values(|id: Identity| id@)
}

impl<S> Hub<S> {
    /// Every peer has its stream, and no name stands twice.
    pub closed spec fn wf(self) -> bool {
        &&& self.streams@.len() == self.names@.len()
        &&& forall|i: int, j: int|
            0 <= i < j < self.names@.len() ==> (#[trigger] self.names@[i])@ != (
            #[trigger] self.names@[j])@
    }

    /// No name stands twice.
    pub proof fn lemma_names_distinct(self)
        requires
            self.wf(),
        ensures
            self@.names.no_duplicates(),
    {
        assert forall|i: int, j: int|
            0 <= i < self@.names.len() && 0 <= j < self@.names.len() && i != j implies self@.names[i]
            != self@.names[j] by {
            assert(self@.names[i] == self.names@[i]@);
            assert(self@.names[j] == self.names@[j]@);
        }
    }

    /// The ways to the peers, in the order of their names.
    pub closed spec fn streams(self) -> Seq<S> {
        self.streams@
    }

    pub fn new(mode: SendMode) -> (r: Self)
        ensures
            r.wf(),
            r@ == (HubState { mode, names: Seq::empty(), cursor: 0 }),
            r.streams() == Seq::<S>::empty(),
    {
        let r = Hub { mode, names: Vec::new(), streams: Vec::new(), cursor: 0 };
        assert(r@.names =~= Seq::<Seq<u8>>::empty());
        r
    }

    /// Where a peer stands.
    fn position(&self, name: &Identity) -> (r: Option<usize>)
        ensures
            match r {
                Some(i) => i < self.names@.len() && self@.names.contains(name@)
                    && self@.names.index_of_first(name@) == Some(i as int),
                None => !self@.names.contains(name@),
            },
    {
        let k: u128 = key_of(name);
        let mut i: usize = 0;
        while i < self.names.len()
            invariant
                i <= self.names@.len(),
                k == be(name@),
                forall|j: int| 0 <= j < i ==> #[trigger] self@.names[j] != name@,
            decreases self.names@.len() - i,
        {
            let other: u128 = key_of(&self.names[i]);
            if other == k {
                proof {
                    lemma_be_injective(self.names@[i as int]@, name@);
                    assert(self@.names[i as int] == name@);
                    self@.names.index_of_first_ensures(name@);
                }
                return Some(i);
            }
            assert(self@.names[i as int] == self.names@[i as int]@);
            i = i + 1;
        }
        None
    }

    /// Takes note of an event. A peer whose name is taken changes nothing.
    pub fn step(&mut self, event: Event<S>) -> (r: HubStep)
        requires
            old(self).wf(),
        ensures
            final(self).wf(),
            match event {
                Event::NewPeer { name, stream } => if old(self)@.names.contains(name@) {
                    r is Nothing && final(self)@ == old(self)@ && final(self).streams() == old(self).streams()
                } else {
                    r is Start && final(self)@ == (HubState {
                        names: old(self)@.names.push(name@),
                        ..old(self)@
                    }) && final(self).streams() == old(self).streams().push(stream)
                },
                Event::RemovePeer { name } => r is Nothing && match old(self)@.names.index_of_first(name@) {
                    Some(i) => final(self)@ == (HubState {
                        names: old(self)@.names.remove(i),
                        ..old(self)@
                    }) && final(self).streams() == old(self).streams().remove(i),
                    None => final(self)@ == old(self)@ && final(self).streams() == old(self).streams(),
                },
                Event::Message { from, to, msg } => (r matches HubStep::SendTo(ids) && names_of(
                    ids@,
                ) == receivers(old(self)@)) && final(self)@ == (HubState {
                    cursor: if old(self)@.mode == SendMode::RoundRobin && old(self)@.names.len()
                        > 0 {
                        crate::broker::wrap(old(self)@.cursor, usize::MAX as nat)
                    } else {
                        old(self)@.cursor
                    },
                    ..old(self)@
                }) && final(self).streams() == old(self).streams(),
            },
    {
        match event {
            Event::NewPeer { name, stream } => match self.position(&name) {
                Some(_) => HubStep::Nothing,
                None => {
                    self.names.push(name);
                    self.streams.push(stream);
                    assert(self@.names =~= old(self)@.names.push(name@));
                    proof {
                        let o = *old(self);
                        assert forall|i: int, j: int| 0 <= i < j < self.names@.len() implies (
                        #[trigger] self.names@[i])@ != (#[trigger] self.names@[j])@ by {
                            assert(self.names@[i] == o.names@[i]);
                            assert(o@.names[i] == o.names@[i]@);
                            if j < o.names@.len() {
                                assert(self.names@[j] == o.names@[j]);
                            }
                        }
                    }
                    HubStep::Start
                },
            },
            Event::RemovePeer { name } => {
                match self.position(&name) {
                    Some(i) => {
                        self.names.remove(i);
                        self.streams.remove(i);
                        assert(self@.names =~= old(self)@.names.remove(i as int));
                        proof {
                            let o = *old(self);
                            assert forall|a: int, b: int| 0 <= a < b < self.names@.len() implies (
                            #[trigger] self.names@[a])@ != (#[trigger] self.names@[b])@ by {
                                let p = if a < i {
                                    a
                                } else {
                                    a + 1
                                };
                                let q = if b < i {
                                    b
                                } else {
                                    b + 1
                                };
                                assert(self.names@[a] == o.names@[p]);
                                assert(self.names@[b] == o.names@[q]);
                            }
                        }
                    },
                    None => {
                        proof {
                            self@.names.index_of_first_ensures(name@);
                        }
                    },
                }
                HubStep::Nothing
            },
            Event::Message { .. } => {
                let mut ids: Vec<Identity> = Vec::new();
                match self.mode {
                    SendMode::Publish => {
                        let mut i: usize = 0;
                        while i < self.names.len()
                            invariant
                                i <= self.names@.len(),
                                ids@ == self.names@.take(i as int),
                            decreases self.names@.len() - i,
                        {
                            ids.push(self.names[i]);
                            i = i + 1;
                            assert(ids@ =~= self.names@.take(i as int));
                        }
                        assert(ids@ =~= self.names@);
                    },
                    SendMode::RoundRobin => {
                        if self.names.len() > 0 {
                            ids.push(self.names[self.cursor % self.names.len()]);
                            self.cursor = self.cursor.wrapping_add(1);
                        }
                    },
                }
                assert(names_of(ids@) =~= receivers(old(self)@));
                HubStep::SendTo(ids)
            },
        }
    }

    /// Whether the hub goes on after a peer's queue refused a message.
    pub fn survives_refusal(&self) -> (r: bool)
        ensures
            r == (self@.mode == SendMode::RoundRobin),
    {
        self.mode == SendMode::RoundRobin
    }

    /// The way to a peer.
    pub fn stream(&self, name: &Identity) -> (r: Option<&S>)
        requires
            self.wf(),
        ensures
            match self@.names.index_of_first(name@) {
                Some(i) => r == Some(&self.streams()[i]),
                None => r is None,
            },
    {
        match self.position(name) {
            Some(i) => Some(&self.streams[i]),
            None => {
                proof {
                    self@.names.index_of_first_ensures(name@);
                }
                None
            },
        }
    }
}

// When to try again ----------------------------------------------------------

/// How many delays a backoff has before it stays at its last.
pub const BACKOFF_STEPS: u32 = 10;

/// What a connector does next.
#[derive(Clone, Copy, PartialEq, Eq, Structural)]
pub enum ConnectorStep {
    /// Connect at once.
    Connect,
    /// Wait for the delay of this place in the backoff, and connect.
    DelayThenConnect(u32),
}

/// Keeps connecting: at once the first time, and then after delays that start anew with
/// each success.
pub struct Connector {
    reconnecting: bool,
    place: u32,
}

impl Connector {
    /// Whether an attempt was made before.
    pub closed spec fn tried(self) -> bool {
        self.reconnecting
    }

    /// The place of the next delay in the backoff; the last one repeats.
    pub closed spec fn place(self) -> nat {
        self.place as nat
    }

    pub fn new() -> (r: Self)
        ensures
            !r.tried(),
            r.place() == 0,
    {
        Connector { reconnecting: false, place: 0 }
    }

    /// The next attempt.
    pub fn next(&mut self) -> (r: ConnectorStep)
        ensures
            final(self).tried(),
            if old(self).tried() {
                r == ConnectorStep::DelayThenConnect(old(self).place() as u32) && final(self).place() == if old(self).place() < BACKOFF_STEPS {
                    old(self).place() + 1
                } else {
                    old(self).place()
                }
            } else {
                r == ConnectorStep::Connect && final(self).place() == old(self).place()
            },
    {
        if self.reconnecting {
            let place: u32 = self.place;
            if self.place < BACKOFF_STEPS {
                self.place = self.place + 1;
            }
            ConnectorStep::DelayThenConnect(place)
        } else {
            self.reconnecting = true;
            ConnectorStep::Connect
        }
    }

    /// The attempt succeeded.
    pub fn connected(&mut self)
        ensures
            final(self).tried() == old(self).tried(),
            final(self).place() == 0,
    {
        self.place = 0;
    }
}

/// A message of a publishing hub goes to each peer once, in order; that of another goes to
/// the peer whose turn it is, and to none if there is none.
pub proof fn lemma_receivers(s: HubState, i: int)
    ensures
        s.mode == SendMode::Publish ==> receivers(s) == s.names,
        s.mode != SendMode::Publish && s.names.len() == 0 ==> receivers(s).len() == 0,
        s.mode != SendMode::Publish && s.names.len() > 0 ==> receivers(s).len() == 1
            && s.names.contains(receivers(s)[0]),
        s.mode != SendMode::Publish && 0 <= i < s.names.len() && s.cursor == i ==> receivers(s)[0]
            == s.names[i],
        s.mode != SendMode::Publish && s.names.len() > 0 ==> receivers(s) == receivers(
            HubState { cursor: s.cursor + s.names.len(), ..s },
        ),
{
    if s.names.len() > 0 {
        let n = s.names.len() as int;
        vstd::arithmetic::div_mod::lemma_mod_add_multiples_vanish(s.cursor as int, n);
        assert((s.cursor + n) % n == s.cursor as int % n);
        if s.cursor == i && i < n {
            vstd::arithmetic::div_mod::lemma_small_mod(i as nat, n as nat);
        }
    }
}

} // verus!
