//! One connection: the greeting, what is passed on to the broker, what is written, and when
//! the peer counts as gone. Moments are nanoseconds on a clock that never goes back.

use bytes::Bytes;
use vstd::prelude::*;
use crate::buf::{bytes_as_slice, bytes_view};
use crate::inbound::{arrived, Inbound};
use crate::protocol::{
    decode, decoded, encoded, framed, framed_all, frames, heartbeat, hello, next_frame, unframed,
    well_formed, write_frame, Envelope, FrameDecoder, Identity, Message, PROTOCOL_VERSION,
};
use crate::ws::stream::{binary_frames, concat, events, lemma_stream_is_payloads, payloads};

verus! {

/// How long a connection may send nothing before it sends a heartbeat.
pub const HEARTBEAT_INTERVAL: u64 = 5_000_000_000;

/// How long a peer may send nothing before it counts as gone.
pub const HEARTBEAT_TIMEOUT: u64 = 15_000_000_000;

/// How long a connection attempt may take.
pub const CONNECT_TIMEOUT: u64 = 1_000_000_000;

/// How long to wait for the next connection before looking whether to stop.
pub const ACCEPT_POLL: u64 = 50_000_000;

/// How long to wait for bytes before looking what is to be sent.
pub const POLL_INTERVAL: u64 = 50_000_000;

// Time -----------------------------------------------------------------------

/// The time from `since` to `now`.
pub open spec fn elapsed(since: nat, now: nat) -> nat {
    if now > since {
        (now - since) as nat
    } else {
        0
    }
}

/// Whether a heartbeat is due.
pub fn heartbeat_due(last_send: u64, now: u64) -> (r: bool)
    ensures
        r == (elapsed(last_send as nat, now as nat) >= HEARTBEAT_INTERVAL),
{
    now.saturating_sub(last_send) >= HEARTBEAT_INTERVAL
}

/// Whether a peer counts as gone.
pub fn peer_silent(last_recv: u64, now: u64) -> (r: bool)
    ensures
        r == (elapsed(last_recv as nat, now as nat) >= HEARTBEAT_TIMEOUT),
{
    now.saturating_sub(last_recv) >= HEARTBEAT_TIMEOUT
}

/// How long until a heartbeat is due.
pub fn until_heartbeat(last_send: u64, now: u64) -> (r: u64)
    ensures
        r == if elapsed(last_send as nat, now as nat) >= HEARTBEAT_INTERVAL {
            0
        } else {
            HEARTBEAT_INTERVAL - elapsed(last_send as nat, now as nat)
        },
{
    HEARTBEAT_INTERVAL.saturating_sub(now.saturating_sub(last_send))
}

// Envelopes for the broker ---------------------------------------------------

/// The envelopes that the broker is to see. A heartbeat only shows that the peer is there;
/// a greeting has no place behind the first.
pub open spec fn for_broker(m: Message) -> bool {
    m is Data || m is DataReq || m is Ack
}

/// The messages for the broker in some envelopes, in order. What is no message is passed
/// over.
pub open spec fn forwarded(envelopes: Seq<Seq<u8>>) -> Seq<Message>
    decreases envelopes.len(),
{
    if envelopes.len() == 0 {
        Seq::empty()
    } else {
        forwarded(envelopes.drop_last()) + match decoded(envelopes.last()) {
            Some(m) => if for_broker(m) {
                seq![m]
            } else {
                Seq::empty()
            },
            None => Seq::empty(),
        }
    }
}

/// What some envelopes say.
pub open spec fn messages_of(envelopes: Seq<Envelope>) -> Seq<Message> {
    envelopes.map_values(|e: Envelope| e@)
}

/// The envelope in a frame, if it is for the broker.
pub fn on_frame(frame: &[u8]) -> (r: Option<Envelope>)
    ensures
        match r {
            Some(e) => decoded(frame@) == Some(e@) && for_broker(e@),
            None => decoded(frame@) matches Some(m) ==> !for_broker(m),
        },
{
    match decode(frame) {
        Some(Envelope::Heartbeat) => None,
        Some(Envelope::Hello { .. }) => None,
        None => None,
        Some(e) => Some(e),
    }
}

/// The envelopes for the broker in the whole frames that the decoder holds.
pub fn forward_frames(decoder: &mut FrameDecoder) -> (r: Vec<Envelope>)
    ensures
        messages_of(r@) == forwarded(frames(old(decoder)@)),
        final(decoder)@ == unframed(old(decoder)@),
{
    let mut out: Vec<Envelope> = Vec::new();
    let ghost start = decoder@;
    let ghost mut seen: Seq<Seq<u8>> = Seq::empty();
    assert(messages_of(out@) =~= Seq::<Message>::empty());
    assert(seen + frames(decoder@) =~= frames(start));
    loop
        invariant
            start == old(decoder)@,
            frames(start) == seen + frames(decoder@),
            unframed(start) == unframed(decoder@),
            messages_of(out@) == forwarded(seen),
        decreases decoder@.len(),
    {
        let ghost held = decoder@;
        match decoder.pop() {
            None => {
                assert(frames(held) =~= Seq::<Seq<u8>>::empty());
                assert(seen + frames(held) =~= seen);
                return out;
            },
            Some(frame) => {
                let ghost before = seen;
                let ghost had = messages_of(out@);
                proof {
                    seen = seen.push(frame@);
                    assert(seen.drop_last() =~= before);
                    assert(seen + frames(decoder@) =~= before + frames(held));
                }
                match on_frame(frame.as_slice()) {
                    Some(e) => {
                        out.push(e);
                        assert(messages_of(out@) =~= had.push(e@));
                    },
                    None => {},
                }
                assert(messages_of(out@) =~= forwarded(seen));
            },
        }
    }
}

/// The envelopes for the broker in the whole frames that the decoder holds, and whether it
/// holds any whole frame, for the broker or not.
pub(crate) fn heard_frames(decoder: &mut FrameDecoder) -> (r: (Vec<Envelope>, bool))
    ensures
        messages_of(r.0@) == forwarded(frames(old(decoder)@)),
        r.1 == (frames(old(decoder)@).len() > 0),
        final(decoder)@ == unframed(old(decoder)@),
{
    let before: usize = decoder.held().len();
    let envelopes: Vec<Envelope> = forward_frames(decoder);
    let after: usize = decoder.held().len();
    proof {
        crate::protocol::lemma_unframed_shorter(old(decoder)@);
    }
    (envelopes, after < before)
}

proof fn lemma_forwarded_add(a: Seq<Seq<u8>>, b: Seq<Seq<u8>>)
    ensures
        forwarded(a + b) == forwarded(a) + forwarded(b),
    decreases b.len(),
{
    if b.len() == 0 {
        assert(a + b =~= a);
        assert(forwarded(a) + forwarded(b) =~= forwarded(a));
    } else {
        lemma_forwarded_add(a, b.drop_last());
        assert((a + b).drop_last() =~= a + b.drop_last());
        assert((a + b).last() == b.last());
        assert(forwarded(a + b) =~= forwarded(a) + forwarded(b));
    }
}

/// How a peer's bytes are cut into reads does not matter to what the broker sees.
pub proof fn lemma_forward_any_cut(a: Seq<u8>, b: Seq<u8>)
    ensures
        forwarded(frames(a + b)) == forwarded(frames(a)) + forwarded(frames(unframed(a) + b)),
{
    crate::protocol::lemma_frames_append(a, b);
    lemma_forwarded_add(frames(a), frames(unframed(a) + b));
}

/// What the broker of one end sends, the broker of the other end sees: the same messages, in
/// the same order.
pub proof fn lemma_wire_carries(messages: Seq<Message>)
    requires
        forall|i: int|
            0 <= i < messages.len() ==> {
                &&& well_formed(#[trigger] messages[i])
                &&& for_broker(messages[i])
                &&& encoded(messages[i]).len() < 0x1_0000_0000
            },
    ensures
        forwarded(frames(framed_all(messages.map_values(|m: Message| encoded(m))))) == messages,
{
    let envelopes = messages.map_values(|m: Message| encoded(m));
    assert forall|i: int| 0 <= i < envelopes.len() implies (#[trigger] envelopes[i]).len()
        < 0x1_0000_0000 by {
        assert(encoded(messages[i]).len() < 0x1_0000_0000);
    }
    crate::protocol::lemma_frames_framed(envelopes);
    lemma_forwarded_encoded(messages);
}

/// Over a WebSocket too: however the sender's bytes are cut into binary frames, and under
/// whatever masks, the broker of the other end sees the same messages, in the same order.
pub proof fn lemma_ws_carries(
    messages: Seq<Message>,
    parts: Seq<Seq<u8>>,
    masks: Seq<Seq<u8>>,
    first: Seq<bool>,
    fin: Seq<bool>,
)
    requires
        forall|i: int|
            0 <= i < messages.len() ==> {
                &&& well_formed(#[trigger] messages[i])
                &&& for_broker(messages[i])
                &&& encoded(messages[i]).len() < 0x1_0000_0000
            },
        concat(parts) == framed_all(messages.map_values(|m: Message| encoded(m))),
        masks.len() == parts.len(),
        first.len() == parts.len(),
        fin.len() == parts.len(),
        forall|i: int| 0 <= i < masks.len() ==> (#[trigger] masks[i]).len() == 4,
        forall|i: int|
            0 <= i < parts.len() ==> (#[trigger] parts[i]).len() < 0x8000_0000_0000_0000,
    ensures
        forwarded(frames(payloads(events(binary_frames(parts, masks, first, fin))))) == messages,
{
    lemma_stream_is_payloads(parts, masks, first, fin);
    lemma_wire_carries(messages);
}

/// A frame that holds no message for the broker, of a type that is not known or any other,
/// is passed over, and what stands around it is not.
pub proof fn lemma_unknown_passed_over(a: Seq<Seq<u8>>, envelope: Seq<u8>, b: Seq<Seq<u8>>)
    requires
        decoded(envelope) matches Some(m) ==> !for_broker(m),
    ensures
        forwarded(a + seq![envelope] + b) == forwarded(a + b),
{
    lemma_forwarded_add(a + seq![envelope], b);
    lemma_forwarded_add(a, b);
    assert((a + seq![envelope]).drop_last() =~= a);
    assert(forwarded(a + seq![envelope]) =~= forwarded(a));
}

proof fn lemma_forwarded_encoded(messages: Seq<Message>)
    requires
        forall|i: int|
            0 <= i < messages.len() ==> well_formed(#[trigger] messages[i]) && for_broker(
                messages[i],
            ),
    ensures
        forwarded(messages.map_values(|m: Message| encoded(m))) == messages,
    decreases messages.len(),
{
    let envelopes = messages.map_values(|m: Message| encoded(m));
    if messages.len() == 0 {
        assert(forwarded(envelopes) =~= messages);
    } else {
        let first = messages.drop_last();
        assert forall|i: int| 0 <= i < first.len() implies well_formed(#[trigger] first[i])
            && for_broker(first[i]) by {
            assert(first[i] == messages[i]);
        }
        lemma_forwarded_encoded(first);
        assert(envelopes.drop_last() =~= first.map_values(|m: Message| encoded(m)));
        assert(messages.last() == messages[messages.len() - 1]);
        crate::protocol::lemma_decode_encode(messages.last());
        assert(forwarded(envelopes) =~= messages);
    }
}

// The greeting ---------------------------------------------------------------

/// The identity in a greeting of this version; nothing in any other envelope.
pub open spec fn greeting(envelope: Seq<u8>) -> Option<Seq<u8>> {
    match decoded(envelope) {
        Some(Message::Hello { version, identity }) => if version == PROTOCOL_VERSION {
            Some(identity)
        } else {
            None
        },
        _ => None,
    }
}

/// The identity in a greeting of this version.
pub fn check_hello(frame: &[u8]) -> (r: Option<Identity>)
    ensures
        match r {
            Some(id) => greeting(frame@) == Some(id@),
            None => greeting(frame@) is None,
        },
{
    match decode(frame) {
        Some(Envelope::Hello { version, identity }) => if version == PROTOCOL_VERSION {
            Some(identity)
        } else {
            None
        },
        _ => None,
    }
}

/// Where waiting for the peer's greeting stands.
pub enum HelloStep {
    /// Read from the connection.
    Read,
    /// The peer said who it is.
    Peer(Identity),
    /// Close the connection.
    GiveUp,
}

/// `r` and `rest` are what waiting comes to once the bytes `held` are there.
pub open spec fn hello_step(held: Seq<u8>, expired: bool, rest: Seq<u8>, r: HelloStep) -> bool {
    match next_frame(held) {
        Some((envelope, n)) => rest == held.skip(n as int) && match greeting(envelope) {
            Some(id) => r matches HelloStep::Peer(peer) && peer@ == id,
            None => r is GiveUp,
        },
        None => rest == held && if expired {
            r is GiveUp
        } else {
            r is Read
        },
    }
}

/// Waits for the peer's greeting: takes in what a read brought (nothing, before the first),
/// `expired` saying whether the time for it is over. The first frame has to be a greeting.
pub fn read_hello(decoder: &mut FrameDecoder, got: Inbound, expired: bool) -> (r: HelloStep)
    requires
        got is Bytes ==> old(decoder)@.len() + arrived(got).len() <= isize::MAX,
    ensures
        match got {
            Inbound::Closed => r is GiveUp && final(decoder)@ == old(decoder)@,
            Inbound::Failed => r is GiveUp && final(decoder)@ == old(decoder)@,
            _ => hello_step(old(decoder)@ + arrived(got), expired, final(decoder)@, r),
        },
{
    match got {
        Inbound::Closed => {
            return HelloStep::GiveUp;
        },
        Inbound::Failed => {
            return HelloStep::GiveUp;
        },
        Inbound::Idle => {
            assert(decoder@ =~= old(decoder)@ + arrived(got));
        },
        Inbound::Bytes(b) => {
            decoder.extend_from(b.as_slice());
        },
    }
    match decoder.pop() {
        Some(frame) => match check_hello(frame.as_slice()) {
            Some(id) => HelloStep::Peer(id),
            None => HelloStep::GiveUp,
        },
        None => if expired {
            HelloStep::GiveUp
        } else {
            HelloStep::Read
        },
    }
}

/// What sniffing for a connection's first byte comes to.
#[derive(Clone, Copy, PartialEq, Eq, Structural)]
pub enum FirstByte {
    Byte(u8),
    /// Try again.
    Retry,
    /// There is none to come.
    Nothing,
}

/// Looks for a connection's first byte: `got` is what a look brought, `expired` whether the
/// time for it is over.
pub fn first_byte(got: &Inbound, expired: bool) -> (r: FirstByte)
    ensures
        r == (match got {
            Inbound::Bytes(b) => if b@.len() > 0 {
                FirstByte::Byte(b@[0])
            } else {
                FirstByte::Nothing
            },
            Inbound::Idle => if expired {
                FirstByte::Nothing
            } else {
                FirstByte::Retry
            },
            _ => FirstByte::Nothing,
        }),
{
    match got {
        Inbound::Bytes(b) => if b.len() > 0 {
            FirstByte::Byte(b[0])
        } else {
            FirstByte::Nothing
        },
        Inbound::Idle => if expired {
            FirstByte::Nothing
        } else {
            FirstByte::Retry
        },
        _ => FirstByte::Nothing,
    }
}

// From the greeting to the end -----------------------------------------------

/// Where a connection stands.
pub enum Stage {
    /// Nothing is sent yet.
    Fresh,
    /// The own greeting is being sent.
    Greeting,
    /// The peer's greeting is awaited.
    AwaitHello,
    /// The peer said who it is, and the broker is being asked whether it may stay.
    AwaitAccept(Identity),
    /// The peer is connected.
    Open(Identity),
    /// It is over.
    Over,
}

/// Where a connection stands, in terms of what is known.
pub enum Progress {
    Fresh,
    Greeting,
    AwaitHello,
    AwaitAccept(Seq<u8>),
    Open(Seq<u8>),
    Over,
}

impl View for Stage {
    type V = Progress;

    open spec fn view(&self) -> Progress {
        match self {
            Stage::Fresh => Progress::Fresh,
            Stage::Greeting => Progress::Greeting,
            Stage::AwaitHello => Progress::AwaitHello,
            Stage::AwaitAccept(id) => Progress::AwaitAccept(id@),
            Stage::Open(id) => Progress::Open(id@),
            Stage::Over => Progress::Over,
        }
    }
}

/// The state of a connection: who this side is, where it stands, and the bytes read that do
/// not make a whole frame yet.
pub struct SessionState {
    pub me: Seq<u8>,
    pub progress: Progress,
    pub held: Seq<u8>,
}

/// Something that happened to a connection.
pub enum SessionEvent {
    /// It was established.
    Started,
    /// The own greeting was written, or not.
    HelloWritten(bool),
    /// A read brought this; `expired` says whether the time for the greeting, or the time since
    /// the last whole frame that a peer may be silent, is over.
    Got { got: Inbound, expired: bool },
    /// The broker answered whether the peer may stay, or is gone.
    Registered(bool),
    /// The broker took what was passed on, or is gone.
    Forwarded(bool),
    /// The connection is to end.
    Ended,
}

/// What to do about a connection.
pub enum SessionAction {
    /// Write this frame.
    WriteHello(Vec<u8>),
    /// Read.
    Read,
    /// Ask the broker whether this peer may stay.
    Register(Identity),
    /// Pass these on to the broker; `heard` says whether they came in a whole frame at least.
    Forward { peer: Identity, envelopes: Vec<Envelope>, heard: bool },
    /// Tell the broker that the peer is gone, and close.
    Down(Identity),
    /// Close.
    Close,
}

/// What to do about a connection, in terms of what is known.
pub enum SessionAct {
    WriteHello(Seq<u8>),
    Read,
    Register(Seq<u8>),
    Forward { peer: Seq<u8>, messages: Seq<Message>, heard: bool },
    Down(Seq<u8>),
    Close,
}

impl View for SessionAction {
    type V = SessionAct;

    open spec fn view(&self) -> SessionAct {
        match self {
            SessionAction::WriteHello(frame) => SessionAct::WriteHello(frame@),
            SessionAction::Read => SessionAct::Read,
            SessionAction::Register(id) => SessionAct::Register(id@),
            SessionAction::Forward { peer, envelopes, heard } => SessionAct::Forward {
                peer: peer@,
                messages: messages_of(envelopes@),
                heard: *heard,
            },
            SessionAction::Down(id) => SessionAct::Down(id@),
            SessionAction::Close => SessionAct::Close,
        }
    }
}

/// A connection that is over tells the broker so if, and only if, its peer was connected.
pub open spec fn end_of(s: SessionState) -> (SessionState, SessionAct) {
    (
        SessionState { progress: Progress::Over, ..s },
        match s.progress {
            Progress::Open(peer) => SessionAct::Down(peer),
            _ => SessionAct::Close,
        },
    )
}

/// The state and the action that an event leads to. What does not fit where the connection
/// stands ends it.
pub open spec fn session_next(s: SessionState, event: SessionEvent) -> (SessionState, SessionAct) {
    match (s.progress, event) {
        (Progress::Fresh, SessionEvent::Started) => (
            SessionState { progress: Progress::Greeting, ..s },
            SessionAct::WriteHello(
                framed(encoded(Message::Hello { version: PROTOCOL_VERSION, identity: s.me })),
            ),
        ),
        (Progress::Greeting, SessionEvent::HelloWritten(true)) => greeted(
            SessionState { progress: Progress::AwaitHello, ..s },
            false,
        ),
        (Progress::AwaitHello, SessionEvent::Got { got: Inbound::Bytes(b), expired }) => greeted(
            SessionState { held: s.held + b@, ..s },
            expired,
        ),
        (Progress::AwaitHello, SessionEvent::Got { got: Inbound::Idle, expired }) => greeted(
            s,
            expired,
        ),
        (Progress::AwaitAccept(peer), SessionEvent::Registered(true)) => passed_on(
            SessionState { progress: Progress::Open(peer), ..s },
            peer,
        ),
        (Progress::Open(peer), SessionEvent::Got { got: Inbound::Bytes(b), expired }) => {
            let all = SessionState { held: s.held + b@, ..s };
            if expired && frames(all.held).len() == 0 {
                end_of(all)
            } else {
                passed_on(all, peer)
            }
        },
        (Progress::Open(peer), SessionEvent::Forwarded(true)) => (s, SessionAct::Read),
        _ => end_of(s),
    }
}

/// The peer's greeting is looked for among the bytes held.
pub open spec fn greeted(s: SessionState, expired: bool) -> (SessionState, SessionAct) {
    match next_frame(s.held) {
        Some((envelope, n)) => {
            let rest = SessionState { held: s.held.skip(n as int), ..s };
            match greeting(envelope) {
                Some(peer) => (
                    SessionState { progress: Progress::AwaitAccept(peer), ..rest },
                    SessionAct::Register(peer),
                ),
                None => end_of(rest),
            }
        },
        None => if expired {
            end_of(s)
        } else {
            (s, SessionAct::Read)
        },
    }
}

/// The whole frames held are passed on.
pub open spec fn passed_on(s: SessionState, peer: Seq<u8>) -> (SessionState, SessionAct) {
    (
        SessionState { held: unframed(s.held), ..s },
        SessionAct::Forward {
            peer,
            messages: forwarded(frames(s.held)),
            heard: frames(s.held).len() > 0,
        },
    )
}

/// One connection.
pub struct Session {
    me: Identity,
    stage: Stage,
    decoder: FrameDecoder,
}

impl View for Session {
    type V = SessionState;

    closed spec fn view(&self) -> SessionState {
        SessionState { me: self.me@, progress: self.stage@, held: self.decoder@ }
    }
}

impl Session {
    pub fn new(me: Identity) -> (r: Self)
        ensures
            r@ == (SessionState { me: me@, progress: Progress::Fresh, held: Seq::empty() }),
    {
        Session { me, stage: Stage::Fresh, decoder: FrameDecoder::new() }
    }

    /// A connection of which `first` was read already.
    pub fn with_first(me: Identity, first: &[u8]) -> (r: Self)
        requires
            first@.len() <= isize::MAX,
        ensures
            r@ == (SessionState { me: me@, progress: Progress::Fresh, held: first@ }),
    {
        let mut decoder: FrameDecoder = FrameDecoder::new();
        decoder.extend_from(first);
        assert(decoder@ =~= first@);
        Session { me, stage: Stage::Fresh, decoder }
    }

    /// The bytes read that do not make a whole frame yet.
    pub fn held(&self) -> (r: &[u8])
        ensures
            r@ == self@.held,
    {
        self.decoder.held()
    }

    fn finish(&mut self) -> (r: SessionAction)
        ensures
            (final(self)@, r@) == end_of(old(self)@),
    {
        let action: SessionAction = match self.stage {
            Stage::Open(peer) => SessionAction::Down(peer),
            _ => SessionAction::Close,
        };
        self.stage = Stage::Over;
        action
    }

    fn seek_hello(&mut self, got: Inbound, expired: bool) -> (r: SessionAction)
        requires
            old(self)@.progress is AwaitHello,
            got is Bytes ==> old(self)@.held.len() + arrived(got).len() <= isize::MAX,
        ensures
            (final(self)@, r@) == (match got {
                Inbound::Closed => end_of(old(self)@),
                Inbound::Failed => end_of(old(self)@),
                _ => greeted(
                    SessionState { held: old(self)@.held + arrived(got), ..old(self)@ },
                    expired,
                ),
            }),
    {
        match read_hello(&mut self.decoder, got, expired) {
            HelloStep::Peer(peer) => {
                self.stage = Stage::AwaitAccept(peer);
                SessionAction::Register(peer)
            },
            HelloStep::GiveUp => self.finish(),
            HelloStep::Read => SessionAction::Read,
        }
    }

    fn pass_on(&mut self, peer: Identity) -> (r: SessionAction)
        ensures
            (final(self)@, r@) == passed_on(old(self)@, peer@),
    {
        let (envelopes, heard) = heard_frames(&mut self.decoder);
        SessionAction::Forward { peer, envelopes, heard }
    }

    /// Takes note of an event, and says what to do.
    pub fn step(&mut self, event: SessionEvent) -> (r: SessionAction)
        requires
            event matches SessionEvent::Got { got, expired } ==> old(self)@.held.len() + arrived(
                got,
            ).len() <= isize::MAX,
        ensures
            (final(self)@, r@) == session_next(old(self)@, event),
    {
        match event {
            SessionEvent::Started => match self.stage {
                Stage::Fresh => {
                    self.stage = Stage::Greeting;
                    let mut frame: Vec<u8> = Vec::new();
                    let envelope: Bytes = hello(&self.me);
                    write_frame(&mut frame, bytes_as_slice(&envelope));
                    assert(frame@ =~= framed(bytes_view(envelope)));
                    SessionAction::WriteHello(frame)
                },
                _ => self.finish(),
            },
            SessionEvent::HelloWritten(ok) => match self.stage {
                Stage::Greeting => if ok {
                    self.stage = Stage::AwaitHello;
                    assert(self@.held + Seq::<u8>::empty() =~= self@.held);
                    self.seek_hello(Inbound::Idle, false)
                } else {
                    self.finish()
                },
                _ => self.finish(),
            },
            SessionEvent::Got { got, expired } => match self.stage {
                Stage::AwaitHello => {
                    assert(self@.held + Seq::<u8>::empty() =~= self@.held);
                    self.seek_hello(got, expired)
                },
                Stage::Open(peer) => match got {
                    Inbound::Bytes(b) => {
                        self.decoder.extend_from(b.as_slice());
                        let (envelopes, heard) = heard_frames(&mut self.decoder);
                        if expired && !heard {
                            proof {
                                crate::protocol::lemma_unframed_shorter(old(self)@.held + b@);
                            }
                            return self.finish();
                        }
                        SessionAction::Forward { peer, envelopes, heard }
                    },
                    _ => self.finish(),
                },
                _ => self.finish(),
            },
            SessionEvent::Registered(accepted) => match self.stage {
                Stage::AwaitAccept(peer) => if accepted {
                    self.stage = Stage::Open(peer);
                    self.pass_on(peer)
                } else {
                    self.finish()
                },
                _ => self.finish(),
            },
            SessionEvent::Forwarded(taken) => match self.stage {
                Stage::Open(_) => if taken {
                    SessionAction::Read
                } else {
                    self.finish()
                },
                _ => self.finish(),
            },
            SessionEvent::Ended => self.finish(),
        }
    }
}

/// Nothing is passed on to the broker, and no end is told to it, but for a peer that it let
/// stay; and a peer is let stay only under the identity of its greeting.
pub proof fn lemma_nothing_before_accept(s: SessionState, event: SessionEvent)
    ensures
        session_next(s, event).1 matches SessionAct::Forward { peer, messages, heard } ==> (s.progress
            == Progress::Open(peer) || (s.progress == Progress::AwaitAccept(peer) && event
            == SessionEvent::Registered(true))),
        session_next(s, event).1 matches SessionAct::Down(peer) ==> s.progress == Progress::Open(
            peer,
        ),
        session_next(s, event).0.progress matches Progress::Open(peer) ==> (s.progress
            == Progress::Open(peer) || (s.progress == Progress::AwaitAccept(peer) && event
            == SessionEvent::Registered(true))),
{
}

/// A connection that is over stays over, and does nothing but close: its end is told to the
/// broker once at most.
pub proof fn lemma_over_stays_over(s: SessionState, event: SessionEvent)
    requires
        s.progress is Over,
    ensures
        session_next(s, event).0.progress is Over,
        session_next(s, event).1 is Close,
{
}

/// A connection whose peer was connected ends by telling the broker so.
pub proof fn lemma_open_ends_down(s: SessionState, event: SessionEvent)
    requires
        s.progress is Open,
        session_next(s, event).0.progress is Over,
    ensures
        session_next(s, event).1 == SessionAct::Down(s.progress->Open_0),
{
}

/// Two ends that greet each other know each other by their identities: what `a` writes
/// first has `b`, once it has arrived, ask whether `a` may stay. What arrived behind it is
/// kept.
pub proof fn lemma_greetings_meet(a: SessionState, b: SessionState, rest: Seq<u8>, expired: bool)
    requires
        a.progress is Fresh,
        a.me.len() == 16,
        b.progress is AwaitHello,
        session_next(a, SessionEvent::Started).1 matches SessionAct::WriteHello(frame) && b.held
            == frame + rest,
    ensures
        greeted(b, expired) == (
            SessionState { progress: Progress::AwaitAccept(a.me), held: rest, ..b },
            SessionAct::Register(a.me),
        ),
{
    let m = Message::Hello { version: PROTOCOL_VERSION, identity: a.me };
    let frame = framed(encoded(m));
    crate::protocol::lemma_decode_encode(m);
    crate::protocol::lemma_next_frame(encoded(m), rest);
    assert((frame + rest).skip(frame.len() as int) =~= rest);
}

/// A first frame that is no greeting of this version closes the connection, and the broker
/// never hears of it.
pub proof fn lemma_no_greeting_closes(s: SessionState, envelope: Seq<u8>, rest: Seq<u8>, expired: bool)
    requires
        s.progress is AwaitHello,
        envelope.len() < 0x1_0000_0000,
        s.held == framed(envelope) + rest,
        greeting(envelope) is None,
    ensures
        greeted(s, expired).0.progress is Over,
        greeted(s, expired).1 is Close,
{
    crate::protocol::lemma_next_frame(envelope, rest);
}

/// A peer of which no whole frame came for as long as it may be silent is gone, whatever else
/// came.
pub proof fn lemma_no_frame_ends(s: SessionState, b: Vec<u8>)
    requires
        s.progress is Open,
        frames(s.held + b@).len() == 0,
    ensures
        session_next(s, SessionEvent::Got { got: Inbound::Bytes(b), expired: true }).0.progress
            is Over,
        session_next(s, SessionEvent::Got { got: Inbound::Bytes(b), expired: true }).1
            == SessionAct::Down(s.progress->Open_0),
{
}

/// A peer that is silent for as long as a read waits is gone, and so is one that closes.
pub proof fn lemma_silence_ends(s: SessionState, got: Inbound, expired: bool)
    requires
        s.progress is Open,
        !(got is Bytes),
    ensures
        session_next(s, SessionEvent::Got { got, expired }) == (
            SessionState { progress: Progress::Over, ..s },
            SessionAct::Down(s.progress->Open_0),
        ),
{
}

// Whole connections ----------------------------------------------------------

/// Data, requests and acknowledgements are passed on to the broker, each as it is; greetings,
/// heartbeats and what is no message are not. Nothing else has a part in that.
pub proof fn lemma_forwarded_each(envelope: Seq<u8>, a: Seq<Seq<u8>>, b: Seq<Seq<u8>>)
    ensures
        forwarded(seq![envelope]) == (match decoded(envelope) {
            Some(Message::Data { payload }) => seq![Message::Data { payload }],
            Some(Message::DataReq { msg_id, payload }) => seq![
                Message::DataReq { msg_id, payload },
            ],
            Some(Message::Ack { msg_id }) => seq![Message::Ack { msg_id }],
            _ => Seq::empty(),
        }),
        forwarded(a + b) == forwarded(a) + forwarded(b),
        forwarded(Seq::empty()) == Seq::<Message>::empty(),
{
    lemma_forwarded_add(a, b);
    assert(seq![envelope].drop_last() =~= Seq::<Seq<u8>>::empty());
    assert(forwarded(seq![envelope].drop_last()) == Seq::<Message>::empty());
    assert(forwarded(seq![envelope]) =~= (match decoded(envelope) {
        Some(Message::Data { payload }) => seq![Message::Data { payload }],
        Some(Message::DataReq { msg_id, payload }) => seq![Message::DataReq { msg_id, payload }],
        Some(Message::Ack { msg_id }) => seq![Message::Ack { msg_id }],
        _ => Seq::empty(),
    }));
}

/// A greeting is the type one, the version one and sixteen bytes of identity, and nothing
/// that is shorter or starts otherwise.
pub proof fn lemma_greeting_is(envelope: Seq<u8>)
    ensures
        greeting(envelope) == (if envelope.len() >= 18 && envelope[0] == 1 && envelope[1] == 1 {
            Some(envelope.subrange(2, 18))
        } else {
            None
        }),
{
    if envelope.len() >= 18 {
        assert(envelope.skip(1).subrange(1, 17) =~= envelope.subrange(2, 18));
    }
}

/// The first whole frame decides, however long it took: a greeting of sixteen bytes' identity
/// lets its peer in, and what comes behind it is kept; any other frame ends the wait.
pub proof fn lemma_hello_decides(
    envelope: Seq<u8>,
    behind: Seq<u8>,
    expired: bool,
    rest: Seq<u8>,
    r: HelloStep,
)
    requires
        envelope.len() < 0x1_0000_0000,
        hello_step(framed(envelope) + behind, expired, rest, r),
    ensures
        rest == behind,
        envelope.len() >= 18 && envelope[0] == 1 && envelope[1] == 1 ==> (r matches HelloStep::Peer(
            peer,
        ) && peer@ == envelope.subrange(2, 18)),
        !(envelope.len() >= 18 && envelope[0] == 1 && envelope[1] == 1) ==> r is GiveUp,
{
    crate::protocol::lemma_next_frame(envelope, behind);
    lemma_greeting_is(envelope);
    let held = framed(envelope) + behind;
    assert(held.skip(framed(envelope).len() as int) =~= behind);
}

/// Without a whole frame the bytes are kept, and the wait goes on while there is time.
pub proof fn lemma_hello_waits(held: Seq<u8>, expired: bool, rest: Seq<u8>, r: HelloStep)
    requires
        held.len() < 4 || held.len() < 4 + (held[0] * 0x100_0000 + held[1] * 0x1_0000 + held[2]
            * 0x100 + held[3]),
        hello_step(held, expired, rest, r),
    ensures
        rest == held,
        r is Read <==> !expired,
        r is GiveUp <==> expired,
{
    crate::protocol::lemma_frame_whole(held);
}

/// The state of a connection and what was done about it, after some events.
pub open spec fn session_run(s: SessionState, events: Seq<SessionEvent>) -> (
    SessionState,
    Seq<SessionAct>,
)
    decreases events.len(),
{
    if events.len() == 0 {
        (s, Seq::empty())
    } else {
        let (before, acts) = session_run(s, events.drop_last());
        let (after, act) = session_next(before, events.last());
        (after, acts.push(act))
    }
}

/// The bytes that some events brought.
pub open spec fn session_bytes(events: Seq<SessionEvent>) -> Seq<u8>
    decreases events.len(),
{
    if events.len() == 0 {
        Seq::empty()
    } else {
        session_bytes(events.drop_last()) + match events.last() {
            SessionEvent::Got { got, expired } => arrived(got),
            _ => Seq::empty(),
        }
    }
}

/// The messages passed on to the broker, with the peer that each is said to come from.
pub open spec fn session_passed(acts: Seq<SessionAct>) -> Seq<(Seq<u8>, Message)>
    decreases acts.len(),
{
    if acts.len() == 0 {
        Seq::empty()
    } else {
        session_passed(acts.drop_last()) + match acts.last() {
            SessionAct::Forward { peer, messages, heard } => messages.map_values(
                |m: Message| (peer, m),
            ),
            _ => Seq::empty(),
        }
    }
}

/// Over the whole run of a connection that the broker let stay, however its bytes are cut
/// into reads: what is passed on to the broker is what the frames of all the bytes behind the
/// greeting hold for it, in order, each said to come from the peer that greeted. Nothing is
/// lost, added or reordered, and what is held back is no whole frame.
pub proof fn lemma_session_passes_all(
    s: SessionState,
    peer: Seq<u8>,
    events: Seq<SessionEvent>,
)
    requires
        s.progress == Progress::AwaitAccept(peer),
        session_run(s, events).0.progress is Open,
    ensures
        ({
            let (t, acts) = session_run(s, events);
            let all = s.held + session_bytes(events);
            &&& session_passed(acts) == forwarded(frames(all)).map_values(|m: Message| (peer, m))
            &&& t.held == unframed(all)
            &&& t.progress == Progress::Open(peer)
            &&& t.me == s.me
        }),
{
    lemma_session_run(s, peer, events);
}

proof fn lemma_session_run(s: SessionState, peer: Seq<u8>, events: Seq<SessionEvent>)
    requires
        s.progress == Progress::AwaitAccept(peer),
    ensures
        ({
            let (t, acts) = session_run(s, events);
            let all = s.held + session_bytes(events);
            match t.progress {
                Progress::Open(p) => {
                    &&& p == peer
                    &&& session_passed(acts) == forwarded(frames(all)).map_values(
                        |m: Message| (peer, m),
                    )
                    &&& t.held == unframed(all)
                    &&& t.me == s.me
                },
                Progress::AwaitAccept(p) => events.len() == 0,
                Progress::Over => true,
                _ => false,
            }
        }),
    decreases events.len(),
{
    if events.len() > 0 {
        let first = events.drop_last();
        lemma_session_run(s, peer, first);
        let (before, acts) = session_run(s, first);
        let all = s.held + session_bytes(first);
        let event = events.last();
        let (after, act) = session_next(before, event);
        let tag = |m: Message| (peer, m);
        assert(acts.push(act).drop_last() =~= acts);
        if after.progress is Open {
            match before.progress {
                Progress::AwaitAccept(p) => {
                    assert(first.len() == 0);
                    assert(all =~= s.held);
                    assert(s.held + session_bytes(events) =~= s.held);
                    assert(session_passed(acts) =~= Seq::empty());
                    assert(session_passed(acts.push(act)) =~= forwarded(
                        frames(s.held),
                    ).map_values(tag));
                },
                _ => {
                    let more = match event {
                        SessionEvent::Got { got, expired } => arrived(got),
                        _ => Seq::empty(),
                    };
                    assert(s.held + session_bytes(events) =~= all + more);
                    if event is Got {
                        lemma_forward_any_cut(all, more);
                        crate::protocol::lemma_frames_append(all, more);
                        let now = forwarded(frames(unframed(all) + more));
                        assert(session_passed(acts.push(act)) =~= session_passed(acts)
                            + now.map_values(tag));
                        assert(session_passed(acts.push(act)) =~= forwarded(
                            frames(all + more),
                        ).map_values(tag));
                    } else {
                        assert(all + more =~= all);
                        assert(session_passed(acts.push(act)) =~= session_passed(acts));
                    }
                },
            }
        }
    }
}

/// What one end's broker sends, the other end's session passes on to its broker: the same
/// messages, in the same order, from the first frame behind the greeting on.
pub proof fn lemma_session_carries(
    s: SessionState,
    peer: Seq<u8>,
    events: Seq<SessionEvent>,
    messages: Seq<Message>,
)
    requires
        s.progress == Progress::AwaitAccept(peer),
        session_run(s, events).0.progress is Open,
        s.held + session_bytes(events) == framed_all(
            messages.map_values(|m: Message| encoded(m)),
        ),
        forall|i: int|
            0 <= i < messages.len() ==> match #[trigger] messages[i] {
                Message::Data { payload } => payload.len() < 0xffff_ffff,
                Message::DataReq { msg_id, payload } => msg_id.len() == 16 && payload.len()
                    < 0xffff_ffef,
                Message::Ack { msg_id } => msg_id.len() == 16,
                _ => false,
            },
    ensures
        session_passed(session_run(s, events).1) == messages.map_values(|m: Message| (peer, m)),
{
    lemma_session_passes_all(s, peer, events);
    lemma_wire_carries(messages);
}

/// What a connection does next, and when it is over. It greets first, under its own identity;
/// it waits for a greeting as the first frame, as long as there is time; it then asks the
/// broker, once, and reads and passes on in turn. Anything else ends it.
pub proof fn lemma_session_goes_on(s: SessionState, event: SessionEvent)
    ensures
        ({
            let (t, act) = session_next(s, event);
            let now_held = match event {
                SessionEvent::Got { got, expired } => if got is Bytes || got is Idle {
                    s.held + arrived(got)
                } else {
                    s.held
                },
                _ => s.held,
            };
            let late = event matches SessionEvent::Got { got, expired } && expired;
            let brought = event matches SessionEvent::Got { got, expired } && (got is Bytes
                || got is Idle);
            let greets = event == SessionEvent::HelloWritten(true) && s.progress is Greeting
                || s.progress is AwaitHello && brought;
            &&& t.me == s.me
            &&& act is WriteHello <==> s.progress is Fresh && event is Started
            &&& act is WriteHello ==> t.progress is Greeting && t.held == s.held && act
                == SessionAct::WriteHello(framed(seq![1u8, 1u8] + s.me))
            &&& act is Register <==> greets && (next_frame(now_held) matches Some((e, n))
                && greeting(e) is Some)
            &&& greets && next_frame(now_held) is None && !late ==> act is Read && t.progress
                is AwaitHello && t.held == now_held
            &&& greets && next_frame(now_held) is None && late ==> act is Close && t.progress
                is Over
            &&& greets ==> (next_frame(now_held) matches Some((e, n)) ==> t.held == now_held.skip(
                n as int,
            ) && (match greeting(e) {
                Some(peer) => act == SessionAct::Register(peer) && t.progress
                    == Progress::AwaitAccept(peer),
                None => act is Close && t.progress is Over,
            }))
            &&& s.progress is Fresh && !(event is Started) ==> t.progress is Over && act is Close
            &&& s.progress is Greeting && event != SessionEvent::HelloWritten(true) ==> t.progress
                is Over && act is Close
            &&& s.progress is AwaitHello && !brought ==> t.progress is Over && act is Close
            &&& s.progress is AwaitAccept && event != SessionEvent::Registered(true)
                ==> t.progress is Over && act is Close
            &&& s.progress matches Progress::AwaitAccept(peer) ==> (t.progress is Open <==> event
                == SessionEvent::Registered(true))
            &&& s.progress is Open && event == SessionEvent::Forwarded(true) ==> (t, act) == (
                s,
                SessionAct::Read,
            )
            &&& s.progress is Open ==> (t.progress is Open <==> event == SessionEvent::Forwarded(
                true,
            ) || (event matches SessionEvent::Got { got, expired } && got is Bytes && (!expired
                || frames(now_held).len() > 0)))
            &&& s.progress is Open && event is Got && t.progress is Open ==> (
            act matches SessionAct::Forward { peer, messages, heard } && heard == (frames(
                now_held,
            ).len() > 0))
        }),
{
    match event {
        SessionEvent::Got { got, expired } => {
            if got is Idle {
                assert(s.held + arrived(got) =~= s.held);
            }
        },
        _ => {},
    }
    assert(seq![1u8, 1u8] + s.me =~= encoded(Message::Hello { version: 1, identity: s.me }));
}

/// The times are those of the protocol: a heartbeat after five seconds of sending nothing, and
/// a peer is gone after fifteen of hearing nothing. Time does not run backwards.
pub proof fn lemma_heartbeat_times(since: nat, now: nat)
    ensures
        HEARTBEAT_INTERVAL == 5_000_000_000,
        HEARTBEAT_TIMEOUT == 15_000_000_000,
        since <= now ==> elapsed(since, now) == now - since,
        since > now ==> elapsed(since, now) == 0,
{
}

// The writing half -----------------------------------------------------------

/// What a connection's writer is woken by.
pub enum WriterEvent {
    /// The broker queued this envelope.
    Queued(Bytes),
    /// Nothing was queued for a heartbeat interval.
    Idle,
    /// The broker dropped the connection, or the socket closes.
    Stopped,
}

/// What a connection's writer does.
pub enum WriterStep {
    /// Write this frame; stop if that fails.
    Write(Vec<u8>),
    Stop,
}

/// The next thing that a connection's writer does: whatever is queued, and a heartbeat when
/// idle.
pub fn writer_step(event: WriterEvent) -> (r: WriterStep)
    ensures
        match event {
            WriterEvent::Queued(envelope) => r matches WriterStep::Write(frame) && frame@
                == framed(bytes_view(envelope)),
            WriterEvent::Idle => r matches WriterStep::Write(frame) && frame@ == framed(
                encoded(Message::Heartbeat),
            ),
            WriterEvent::Stopped => r is Stop,
        },
{
    match event {
        WriterEvent::Stopped => WriterStep::Stop,
        WriterEvent::Queued(envelope) => {
            let mut frame: Vec<u8> = Vec::new();
            write_frame(&mut frame, bytes_as_slice(&envelope));
            assert(frame@ =~= framed(bytes_view(envelope)));
            WriterStep::Write(frame)
        },
        WriterEvent::Idle => {
            let mut frame: Vec<u8> = Vec::new();
            let envelope: Bytes = heartbeat();
            write_frame(&mut frame, bytes_as_slice(&envelope));
            assert(frame@ =~= framed(bytes_view(envelope)));
            WriterStep::Write(frame)
        },
    }
}

} // verus!
