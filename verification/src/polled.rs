//! Open connections that one thread serves in both directions, by turns.
//!
//! [`Turns`] serves a connection that is read with a short timeout; [`Reactor`] one that is
//! waited for. Moments are nanoseconds on a clock that never goes back.

use bytes::Bytes;
use vstd::prelude::*;
use crate::buf::{bytes_as_slice, bytes_view};
use crate::conn::{
    elapsed, forward_frames, forwarded, heard_frames, heartbeat_due, messages_of, peer_silent,
    until_heartbeat, HEARTBEAT_INTERVAL, HEARTBEAT_TIMEOUT,
};
use crate::inbound::{arrived, Inbound};
use crate::protocol::{
    encoded, framed, frames, heartbeat, unframed, write_frame, Envelope, FrameDecoder, Identity,
    Message,
};

verus! {

/// What the broker has queued for a connection.
pub enum Queued {
    Envelope(Bytes),
    /// Nothing now.
    Empty,
    /// The broker dropped the connection.
    Dropped,
}

// Turns ----------------------------------------------------------------------

/// Where a turn stands.
#[derive(Clone, Copy, PartialEq, Eq, Structural)]
pub enum TurnPhase {
    /// Taking what the broker has queued.
    Taking,
    /// Writing an envelope that was queued.
    Writing,
    /// Writing a heartbeat.
    Beating,
    /// Reading.
    Reading,
    /// Passing on to the broker what was read.
    Passing,
    /// It is over.
    Over,
}

/// The state of a connection served by turns.
pub struct TurnState {
    pub peer: Seq<u8>,
    pub phase: TurnPhase,
    pub held: Seq<u8>,
    pub last_send: nat,
    pub last_recv: nat,
}

/// Something that happened during a turn.
pub enum TurnEvent {
    /// The broker has this.
    Took(Queued),
    /// A write succeeded, or not.
    Wrote(bool),
    /// A read brought this.
    Got(Inbound),
    /// The broker took what was passed on, or is gone.
    Passed(bool),
}

/// What to do next in a turn.
pub enum TurnAction {
    /// Take the next thing that the broker has queued.
    Take,
    /// Write this frame.
    Write(Vec<u8>),
    /// Read, for as long as a poll interval.
    Read,
    /// Pass these on to the broker.
    Pass(Vec<Envelope>),
    /// Tell the broker that the peer is gone, and close.
    Down(Identity),
    /// Close, the broker knowing already.
    Close,
}

/// What to do next in a turn, in terms of what is known.
pub enum TurnAct {
    Take,
    Write(Seq<u8>),
    Read,
    Pass(Seq<Message>),
    Down(Seq<u8>),
    Close,
}

impl View for TurnAction {
    type V = TurnAct;

    open spec fn view(&self) -> TurnAct {
        match self {
            TurnAction::Take => TurnAct::Take,
            TurnAction::Write(frame) => TurnAct::Write(frame@),
            TurnAction::Read => TurnAct::Read,
            TurnAction::Pass(envelopes) => TurnAct::Pass(messages_of(envelopes@)),
            TurnAction::Down(id) => TurnAct::Down(id@),
            TurnAction::Close => TurnAct::Close,
        }
    }
}

/// The peer is gone.
pub open spec fn turn_over(s: TurnState) -> (TurnState, TurnAct) {
    (TurnState { phase: TurnPhase::Over, ..s }, TurnAct::Down(s.peer))
}

/// Before a read: a peer that has been silent for too long is gone.
pub open spec fn turn_read(s: TurnState, now: nat) -> (TurnState, TurnAct) {
    if elapsed(s.last_recv, now) >= HEARTBEAT_TIMEOUT {
        turn_over(s)
    } else {
        (TurnState { phase: TurnPhase::Reading, ..s }, TurnAct::Read)
    }
}

/// After what was queued: a heartbeat, if nothing was sent for long.
pub open spec fn turn_beat(s: TurnState, now: nat) -> (TurnState, TurnAct) {
    if elapsed(s.last_send, now) >= HEARTBEAT_INTERVAL {
        (
            TurnState { phase: TurnPhase::Beating, ..s },
            TurnAct::Write(framed(encoded(Message::Heartbeat))),
        )
    } else {
        turn_read(s, now)
    }
}

/// The state and the action that an event at `now` leads to. What does not fit where the
/// turn stands ends the connection.
pub open spec fn turn_next(s: TurnState, event: TurnEvent, now: nat) -> (TurnState, TurnAct) {
    match (s.phase, event) {
        (TurnPhase::Taking, TurnEvent::Took(Queued::Envelope(e))) => (
            TurnState { phase: TurnPhase::Writing, ..s },
            TurnAct::Write(framed(bytes_view(e))),
        ),
        (TurnPhase::Taking, TurnEvent::Took(Queued::Empty)) => turn_beat(s, now),
        (TurnPhase::Taking, TurnEvent::Took(Queued::Dropped)) => (
            TurnState { phase: TurnPhase::Over, ..s },
            TurnAct::Close,
        ),
        (TurnPhase::Writing, TurnEvent::Wrote(true)) => (
            TurnState { phase: TurnPhase::Taking, last_send: now, ..s },
            TurnAct::Take,
        ),
        (TurnPhase::Writing, TurnEvent::Wrote(false)) => turn_beat(s, now),
        (TurnPhase::Beating, TurnEvent::Wrote(true)) => turn_read(
            TurnState { last_send: now, ..s },
            now,
        ),
        (TurnPhase::Reading, TurnEvent::Got(Inbound::Bytes(b))) => {
            let all = s.held + b@;
            (
                TurnState {
                    phase: TurnPhase::Passing,
                    held: unframed(all),
                    last_recv: if frames(all).len() > 0 {
                        now
                    } else {
                        s.last_recv
                    },
                    ..s
                },
                TurnAct::Pass(forwarded(frames(all))),
            )
        },
        (TurnPhase::Reading, TurnEvent::Got(Inbound::Idle)) => (
            TurnState { phase: TurnPhase::Taking, ..s },
            TurnAct::Take,
        ),
        (TurnPhase::Passing, TurnEvent::Passed(true)) => (
            TurnState { phase: TurnPhase::Taking, ..s },
            TurnAct::Take,
        ),
        (TurnPhase::Over, _) => (s, TurnAct::Close),
        _ => turn_over(s),
    }
}

/// A connection served by turns.
pub struct Turns {
    peer: Identity,
    phase: TurnPhase,
    decoder: FrameDecoder,
    last_send: u64,
    last_recv: u64,
}

impl View for Turns {
    type V = TurnState;

    closed spec fn view(&self) -> TurnState {
        TurnState {
            peer: self.peer@,
            phase: self.phase,
            held: self.decoder@,
            last_send: self.last_send as nat,
            last_recv: self.last_recv as nat,
        }
    }
}

/// The frame of a heartbeat.
fn heartbeat_frame() -> (r: Vec<u8>)
    ensures
        r@ == framed(encoded(Message::Heartbeat)),
{
    let mut frame: Vec<u8> = Vec::new();
    let envelope: Bytes = heartbeat();
    write_frame(&mut frame, bytes_as_slice(&envelope));
    assert(frame@ =~= framed(bytes_view(envelope)));
    frame
}

impl Turns {
    /// A connection to `peer` that opened at `now`, of which `first` was read already. The
    /// first thing to do is to pass on what the action says.
    pub fn open(peer: Identity, first: &[u8], now: u64) -> (r: (Self, TurnAction))
        requires
            first@.len() <= isize::MAX,
        ensures
            r.0@ == (TurnState {
                peer: peer@,
                phase: TurnPhase::Passing,
                held: unframed(first@),
                last_send: now as nat,
                last_recv: now as nat,
            }),
            r.1@ == TurnAct::Pass(forwarded(frames(first@))),
    {
        let mut decoder: FrameDecoder = FrameDecoder::new();
        decoder.extend_from(first);
        assert(decoder@ =~= first@);
        let envelopes: Vec<Envelope> = forward_frames(&mut decoder);
        (
            Turns { peer, phase: TurnPhase::Passing, decoder, last_send: now, last_recv: now },
            TurnAction::Pass(envelopes),
        )
    }

    /// The bytes read that do not make a whole frame yet.
    pub fn held(&self) -> (r: &[u8])
        ensures
            r@ == self@.held,
    {
        self.decoder.held()
    }

    fn over(&mut self) -> (r: TurnAction)
        ensures
            (final(self)@, r@) == turn_over(old(self)@),
    {
        self.phase = TurnPhase::Over;
        TurnAction::Down(self.peer)
    }

    fn read_or_over(&mut self, now: u64) -> (r: TurnAction)
        ensures
            (final(self)@, r@) == turn_read(old(self)@, now as nat),
    {
        if peer_silent(self.last_recv, now) {
            return self.over();
        }
        self.phase = TurnPhase::Reading;
        TurnAction::Read
    }

    fn beat_or_read(&mut self, now: u64) -> (r: TurnAction)
        ensures
            (final(self)@, r@) == turn_beat(old(self)@, now as nat),
    {
        if heartbeat_due(self.last_send, now) {
            self.phase = TurnPhase::Beating;
            return TurnAction::Write(heartbeat_frame());
        }
        self.read_or_over(now)
    }

    /// Takes note of an event at `now`, and says what to do.
    pub fn step(&mut self, event: TurnEvent, now: u64) -> (r: TurnAction)
        requires
            event matches TurnEvent::Got(got) ==> old(self)@.held.len() + arrived(got).len()
                <= isize::MAX,
        ensures
            (final(self)@, r@) == turn_next(old(self)@, event, now as nat),
    {
        match self.phase {
            TurnPhase::Over => TurnAction::Close,
            TurnPhase::Taking => match event {
                TurnEvent::Took(Queued::Envelope(e)) => {
                    let mut frame: Vec<u8> = Vec::new();
                    write_frame(&mut frame, bytes_as_slice(&e));
                    assert(frame@ =~= framed(bytes_view(e)));
                    self.phase = TurnPhase::Writing;
                    TurnAction::Write(frame)
                },
                TurnEvent::Took(Queued::Empty) => self.beat_or_read(now),
                TurnEvent::Took(Queued::Dropped) => {
                    self.phase = TurnPhase::Over;
                    TurnAction::Close
                },
                _ => self.over(),
            },
            TurnPhase::Writing => match event {
                TurnEvent::Wrote(true) => {
                    self.last_send = now;
                    self.phase = TurnPhase::Taking;
                    TurnAction::Take
                },
                TurnEvent::Wrote(false) => self.beat_or_read(now),
                _ => self.over(),
            },
            TurnPhase::Beating => match event {
                TurnEvent::Wrote(true) => {
                    self.last_send = now;
                    self.read_or_over(now)
                },
                _ => self.over(),
            },
            TurnPhase::Reading => match event {
                TurnEvent::Got(Inbound::Bytes(b)) => {
                    self.decoder.extend_from(b.as_slice());
                    let (envelopes, heard) = heard_frames(&mut self.decoder);
                    if heard {
                        self.last_recv = now;
                    }
                    self.phase = TurnPhase::Passing;
                    TurnAction::Pass(envelopes)
                },
                TurnEvent::Got(Inbound::Idle) => {
                    self.phase = TurnPhase::Taking;
                    TurnAction::Take
                },
                _ => self.over(),
            },
            TurnPhase::Passing => match event {
                TurnEvent::Passed(true) => {
                    self.phase = TurnPhase::Taking;
                    TurnAction::Take
                },
                _ => self.over(),
            },
        }
    }
}

/// Whatever follows on a connection that is over is to close it: the broker is told of its
/// end once at most.
pub proof fn lemma_turns_over(s: TurnState, event: TurnEvent, now: nat)
    requires
        s.phase == TurnPhase::Over,
    ensures
        turn_next(s, event, now) == (s, TurnAct::Close),
{
}

/// The broker is told that a peer is gone exactly when its connection ends, unless the
/// broker ended it itself.
pub proof fn lemma_turns_end(s: TurnState, event: TurnEvent, now: nat)
    requires
        s.phase != TurnPhase::Over,
    ensures
        turn_next(s, event, now).0.phase == TurnPhase::Over <==> (turn_next(s, event, now).1
            == TurnAct::Down(s.peer) || turn_next(s, event, now).1 is Close),
        turn_next(s, event, now).1 is Close ==> event == TurnEvent::Took(Queued::Dropped),
{
}

/// A turn reads only while the peer was heard of within the timeout, and only once nothing
/// is queued and no heartbeat is due.
pub proof fn lemma_turns_read(s: TurnState, event: TurnEvent, now: nat)
    requires
        turn_next(s, event, now).1 is Read,
    ensures
        elapsed(s.last_recv, now) < HEARTBEAT_TIMEOUT,
        elapsed(turn_next(s, event, now).0.last_send, now) < HEARTBEAT_INTERVAL,
{
}

/// A peer that sends bytes but no whole frame is as silent as one that sends nothing.
pub proof fn lemma_turns_need_frames(s: TurnState, b: Vec<u8>, now: nat)
    requires
        frames(s.held + b@).len() == 0,
    ensures
        turn_next(s, TurnEvent::Got(Inbound::Bytes(b)), now).0.last_recv == s.last_recv,
{
}

/// The state of a connection and what was done about it, after some events, each with its
/// time.
pub open spec fn turns_run(s: TurnState, events: Seq<(TurnEvent, nat)>) -> (
    TurnState,
    Seq<TurnAct>,
)
    decreases events.len(),
{
    if events.len() == 0 {
        (s, Seq::empty())
    } else {
        let (before, acts) = turns_run(s, events.drop_last());
        let (after, act) = turn_next(before, events.last().0, events.last().1);
        (after, acts.push(act))
    }
}

/// The bytes that some events brought.
pub open spec fn turns_bytes(events: Seq<(TurnEvent, nat)>) -> Seq<u8>
    decreases events.len(),
{
    if events.len() == 0 {
        Seq::empty()
    } else {
        turns_bytes(events.drop_last()) + match events.last().0 {
            TurnEvent::Got(got) => arrived(got),
            _ => Seq::empty(),
        }
    }
}

/// The messages passed on to the broker.
pub open spec fn turns_passed(acts: Seq<TurnAct>) -> Seq<Message>
    decreases acts.len(),
{
    if acts.len() == 0 {
        Seq::empty()
    } else {
        turns_passed(acts.drop_last()) + match acts.last() {
            TurnAct::Pass(messages) => messages,
            _ => Seq::empty(),
        }
    }
}

/// Over the whole run of a connection, however its bytes are cut into reads: what is passed on
/// to the broker is what the frames of all its bytes hold for it, in order, and what is held
/// back is no whole frame.
pub proof fn lemma_turns_pass_all(s: TurnState, events: Seq<(TurnEvent, nat)>)
    requires
        frames(s.held).len() == 0,
        turns_run(s, events).0.phase != TurnPhase::Over,
    ensures
        ({
            let (t, acts) = turns_run(s, events);
            let all = s.held + turns_bytes(events);
            &&& turns_passed(acts) == forwarded(frames(all))
            &&& t.held == unframed(all)
            &&& t.peer == s.peer
        }),
    decreases events.len(),
{
    if events.len() == 0 {
        assert(s.held + turns_bytes(events) =~= s.held);
        crate::protocol::lemma_unframed_shorter(s.held);
        assert(frames(s.held) =~= Seq::<Seq<u8>>::empty());
        crate::conn::lemma_forwarded_each(Seq::empty(), Seq::empty(), Seq::empty());
    } else {
        let first = events.drop_last();
        let (before, acts) = turns_run(s, first);
        let (event, now) = events.last();
        let (after, act) = turn_next(before, event, now);
        lemma_turns_pass_all(s, first);
        let all = s.held + turns_bytes(first);
        let more = match event {
            TurnEvent::Got(got) => arrived(got),
            _ => Seq::empty(),
        };
        assert(acts.push(act).drop_last() =~= acts);
        assert(s.held + turns_bytes(events) =~= all + more);
        if event matches TurnEvent::Got(got) && got is Bytes {
            crate::conn::lemma_forward_any_cut(all, more);
            crate::protocol::lemma_frames_append(all, more);
        } else {
            assert(all + more =~= all);
            assert(turns_passed(acts.push(act)) =~= turns_passed(acts));
        }
    }
}

/// The time of the last frame is that of the last read that completed a whole frame, of
/// whatever type; nothing else changes it.
pub proof fn lemma_turns_frame_is_life(s: TurnState, event: TurnEvent, now: nat)
    ensures
        turn_next(s, event, now).0.last_recv == (if s.phase == TurnPhase::Reading && (
        event matches TurnEvent::Got(got) && got is Bytes && frames(s.held + arrived(got)).len()
            > 0) {
            now
        } else {
            s.last_recv
        }),
{
}

/// The time of the last write is that of the last write that succeeded, of a message or of a
/// heartbeat; nothing else changes it.
pub proof fn lemma_turns_write_is_sent(s: TurnState, event: TurnEvent, now: nat)
    ensures
        turn_next(s, event, now).0.last_send == (if (s.phase == TurnPhase::Writing || s.phase
            == TurnPhase::Beating) && event == TurnEvent::Wrote(true) {
            now
        } else {
            s.last_send
        }),
{
}

/// A peer is told to be gone exactly when it was silent for too long once nothing is left to
/// write, when a read or a heartbeat or the broker fails, or when something happens out of
/// turn. One of which a whole frame came within the timeout is never gone for silence.
pub proof fn lemma_turns_down_when(s: TurnState, event: TurnEvent, now: nat)
    requires
        s.phase != TurnPhase::Over,
    ensures
        ({
            let act = turn_next(s, event, now).1;
            let silent = now >= s.last_recv + 15_000_000_000;
            let quiet = now >= s.last_send + 5_000_000_000;
            match (s.phase, event) {
                (TurnPhase::Taking, TurnEvent::Took(q)) => match q {
                    Queued::Envelope(e) => act == TurnAct::Write(framed(bytes_view(e))),
                    Queued::Dropped => act is Close,
                    Queued::Empty => if quiet {
                        act == TurnAct::Write(seq![0u8, 0u8, 0u8, 1u8, 2u8])
                    } else if silent {
                        act == TurnAct::Down(s.peer)
                    } else {
                        act is Read
                    },
                },
                (TurnPhase::Writing, TurnEvent::Wrote(ok)) => if ok {
                    act is Take
                } else if quiet {
                    act == TurnAct::Write(seq![0u8, 0u8, 0u8, 1u8, 2u8])
                } else if silent {
                    act == TurnAct::Down(s.peer)
                } else {
                    act is Read
                },
                (TurnPhase::Beating, TurnEvent::Wrote(ok)) => if ok && !silent {
                    act is Read
                } else {
                    act == TurnAct::Down(s.peer)
                },
                (TurnPhase::Reading, TurnEvent::Got(got)) => match got {
                    Inbound::Bytes(b) => act is Pass,
                    Inbound::Idle => act is Take,
                    _ => act == TurnAct::Down(s.peer),
                },
                (TurnPhase::Passing, TurnEvent::Passed(ok)) => if ok {
                    act is Take
                } else {
                    act == TurnAct::Down(s.peer)
                },
                _ => act == TurnAct::Down(s.peer),
            }
        }),
{
    lemma_beat_bytes();
}

/// A heartbeat on the wire.
pub(crate) proof fn lemma_beat_bytes()
    ensures
        framed(encoded(Message::Heartbeat)) == seq![0u8, 0u8, 0u8, 1u8, 2u8],
{
    reveal_with_fuel(crate::be::to_be, 5);
    assert(encoded(Message::Heartbeat) =~= seq![2u8]);
    assert(crate::be::to_be(1, 4) =~= seq![0u8, 0u8, 0u8, 1u8]);
    assert(framed(encoded(Message::Heartbeat)) =~= seq![0u8, 0u8, 0u8, 1u8, 2u8]);
}

/// Where a turn goes on: what is queued is taken until nothing is left, each written before
/// the next is taken; a heartbeat is written where one is due; then one read, whose frames are
/// passed on before the next turn. A connection that is told to be gone or closed is over.
pub proof fn lemma_turns_phase(s: TurnState, event: TurnEvent, now: nat)
    ensures
        ({
            let (t, act) = turn_next(s, event, now);
            &&& act is Take ==> t.phase == TurnPhase::Taking
            &&& act is Read ==> t.phase == TurnPhase::Reading
            &&& act is Pass ==> t.phase == TurnPhase::Passing
            &&& act is Down || act is Close ==> t.phase == TurnPhase::Over
            &&& act is Write && event is Took && (event matches TurnEvent::Took(q) && q is Envelope)
                ==> t.phase == TurnPhase::Writing
            &&& act is Write && !(event matches TurnEvent::Took(q) && q is Envelope) ==> t.phase
                == TurnPhase::Beating
            &&& t.peer == s.peer
            &&& !(event is Got) ==> t.held == s.held
        }),
{
}

// The reactor ----------------------------------------------------------------

/// Where a round of the reactor stands.
#[derive(Clone, Copy, PartialEq, Eq, Structural)]
pub enum ReactorPhase {
    /// Waiting for the connection, for the broker or for time to pass.
    Waiting,
    /// Taking what the broker has queued; `true` if the connection has bytes to read.
    Taking(bool),
    /// Reading what is there.
    Reading,
    /// Passing on to the broker what was read.
    Passing,
    /// Writing what is to be written.
    Flushing,
    /// Writing it again, with a heartbeat.
    Beating,
    /// Saying what to wait for.
    Arming,
    /// It is over.
    Over,
}

/// The state of a reactor.
pub struct ReactorState {
    pub phase: ReactorPhase,
    pub held: Seq<u8>,
    pub last_inbound: nat,
    pub last_outbound: nat,
}

/// Something that happened in a round.
pub enum ReactorEvent {
    /// The wait is over: whether it succeeded, whether the socket closes, and whether the
    /// connection has bytes to read.
    Woke { ok: bool, shutdown: bool, readable: bool },
    /// The broker has this.
    Took(Queued),
    /// The connection had these bytes; the peer closed, if `closed`; or the read failed.
    Read { bytes: Vec<u8>, closed: bool, failed: bool },
    /// The broker took what was passed on, or is gone.
    Passed(bool),
    /// What was to be written is written but for `more`, or the write failed.
    Flushed { more: bool, failed: bool },
    /// What to wait for is said, or not; the socket closes, if `shutdown`.
    Armed { ok: bool, shutdown: bool },
}

/// What to do next in a round.
pub enum ReactorAction {
    /// Wait for as long as this.
    Wait(u64),
    /// Take the next thing that the broker has queued.
    Take,
    /// Put this envelope behind what is to be written, and take the next.
    Enqueue(Bytes),
    /// Read what is there.
    Read,
    /// Pass these on to the broker.
    Pass(Vec<Envelope>),
    /// Write what is to be written.
    Flush,
    /// Put a heartbeat behind what is to be written, and write it.
    BeatAndFlush(Bytes),
    /// Wait for the connection to be readable, and writable too if `true`.
    Arm(bool),
    /// Stop.
    Stop,
}

/// What to do next in a round, in terms of what is known.
pub enum ReactorAct {
    Wait(nat),
    Take,
    Enqueue(Seq<u8>),
    Read,
    Pass(Seq<Message>),
    Flush,
    BeatAndFlush(Seq<u8>),
    Arm(bool),
    Stop,
}

impl View for ReactorAction {
    type V = ReactorAct;

    open spec fn view(&self) -> ReactorAct {
        match self {
            ReactorAction::Wait(t) => ReactorAct::Wait(*t as nat),
            ReactorAction::Take => ReactorAct::Take,
            ReactorAction::Enqueue(e) => ReactorAct::Enqueue(bytes_view(*e)),
            ReactorAction::Read => ReactorAct::Read,
            ReactorAction::Pass(envelopes) => ReactorAct::Pass(messages_of(envelopes@)),
            ReactorAction::Flush => ReactorAct::Flush,
            ReactorAction::BeatAndFlush(e) => ReactorAct::BeatAndFlush(bytes_view(*e)),
            ReactorAction::Arm(more) => ReactorAct::Arm(*more),
            ReactorAction::Stop => ReactorAct::Stop,
        }
    }
}

pub open spec fn reactor_stop(s: ReactorState) -> (ReactorState, ReactorAct) {
    (ReactorState { phase: ReactorPhase::Over, ..s }, ReactorAct::Stop)
}

/// The top of a round: wait until something happens or a heartbeat is due.
pub open spec fn reactor_wait(s: ReactorState, shutdown: bool, now: nat) -> (
    ReactorState,
    ReactorAct,
) {
    if shutdown {
        reactor_stop(s)
    } else {
        let quiet = elapsed(s.last_outbound, now);
        (
            ReactorState { phase: ReactorPhase::Waiting, ..s },
            ReactorAct::Wait(
                if quiet >= HEARTBEAT_INTERVAL {
                    0
                } else {
                    (HEARTBEAT_INTERVAL - quiet) as nat
                },
            ),
        )
    }
}

/// The bottom of a round: a peer that has been silent for too long is gone.
pub open spec fn reactor_arm(s: ReactorState, more: bool, now: nat) -> (ReactorState, ReactorAct) {
    if elapsed(s.last_inbound, now) >= HEARTBEAT_TIMEOUT {
        reactor_stop(s)
    } else {
        (ReactorState { phase: ReactorPhase::Arming, ..s }, ReactorAct::Arm(more))
    }
}

/// The state and the action that an event at `now` leads to. What does not fit where the
/// round stands stops the reactor.
pub open spec fn reactor_next(s: ReactorState, event: ReactorEvent, now: nat) -> (
    ReactorState,
    ReactorAct,
) {
    match (s.phase, event) {
        (ReactorPhase::Waiting, ReactorEvent::Woke { ok, shutdown, readable }) => if ok
            && !shutdown {
            (ReactorState { phase: ReactorPhase::Taking(readable), ..s }, ReactorAct::Take)
        } else {
            reactor_stop(s)
        },
        (ReactorPhase::Taking(readable), ReactorEvent::Took(Queued::Envelope(e))) => (
            ReactorState { last_outbound: now, ..s },
            ReactorAct::Enqueue(bytes_view(e)),
        ),
        (ReactorPhase::Taking(readable), ReactorEvent::Took(Queued::Empty)) => if readable {
            (ReactorState { phase: ReactorPhase::Reading, ..s }, ReactorAct::Read)
        } else {
            (ReactorState { phase: ReactorPhase::Flushing, ..s }, ReactorAct::Flush)
        },
        (ReactorPhase::Reading, ReactorEvent::Read { bytes, closed, failed }) => if closed
            || failed {
            reactor_stop(ReactorState { held: s.held + bytes@, ..s })
        } else {
            let all = s.held + bytes@;
            (
                ReactorState {
                    phase: ReactorPhase::Passing,
                    held: unframed(all),
                    last_inbound: if frames(all).len() > 0 {
                        now
                    } else {
                        s.last_inbound
                    },
                    ..s
                },
                ReactorAct::Pass(forwarded(frames(all))),
            )
        },
        (ReactorPhase::Passing, ReactorEvent::Passed(true)) => (
            ReactorState { phase: ReactorPhase::Flushing, ..s },
            ReactorAct::Flush,
        ),
        (ReactorPhase::Flushing, ReactorEvent::Flushed { more, failed }) => if failed {
            reactor_stop(s)
        } else if elapsed(s.last_outbound, now) >= HEARTBEAT_INTERVAL {
            (
                ReactorState { phase: ReactorPhase::Beating, ..s },
                ReactorAct::BeatAndFlush(encoded(Message::Heartbeat)),
            )
        } else {
            reactor_arm(s, more, now)
        },
        (ReactorPhase::Beating, ReactorEvent::Flushed { more, failed }) => if failed {
            reactor_stop(s)
        } else {
            reactor_arm(ReactorState { last_outbound: now, ..s }, more, now)
        },
        (ReactorPhase::Arming, ReactorEvent::Armed { ok, shutdown }) => if ok {
            reactor_wait(s, shutdown, now)
        } else {
            reactor_stop(s)
        },
        _ => reactor_stop(s),
    }
}

/// The bytes that an event brings.
pub open spec fn brought(event: ReactorEvent) -> Seq<u8> {
    match event {
        ReactorEvent::Read { bytes, closed, failed } => bytes@,
        _ => Seq::empty(),
    }
}

/// One thread's work on one connection, in both directions.
pub struct Reactor {
    phase: ReactorPhase,
    decoder: FrameDecoder,
    last_inbound: u64,
    last_outbound: u64,
}

impl View for Reactor {
    type V = ReactorState;

    closed spec fn view(&self) -> ReactorState {
        ReactorState {
            phase: self.phase,
            held: self.decoder@,
            last_inbound: self.last_inbound as nat,
            last_outbound: self.last_outbound as nat,
        }
    }
}

impl Reactor {
    /// A reactor that starts at `now`, with the bytes `held` not yet a whole frame.
    pub fn start(held: &[u8], shutdown: bool, now: u64) -> (r: (Self, ReactorAction))
        requires
            held@.len() <= isize::MAX,
        ensures
            (r.0@, r.1@) == reactor_wait(
                ReactorState {
                    phase: ReactorPhase::Arming,
                    held: held@,
                    last_inbound: now as nat,
                    last_outbound: now as nat,
                },
                shutdown,
                now as nat,
            ),
    {
        let mut decoder: FrameDecoder = FrameDecoder::new();
        decoder.extend_from(held);
        assert(decoder@ =~= held@);
        let mut reactor = Reactor {
            phase: ReactorPhase::Arming,
            decoder,
            last_inbound: now,
            last_outbound: now,
        };
        let action: ReactorAction = reactor.wait(shutdown, now);
        (reactor, action)
    }

    /// The bytes read that do not make a whole frame yet.
    pub fn held(&self) -> (r: &[u8])
        ensures
            r@ == self@.held,
    {
        self.decoder.held()
    }

    fn stop(&mut self) -> (r: ReactorAction)
        ensures
            (final(self)@, r@) == reactor_stop(old(self)@),
    {
        self.phase = ReactorPhase::Over;
        ReactorAction::Stop
    }

    fn wait(&mut self, shutdown: bool, now: u64) -> (r: ReactorAction)
        ensures
            (final(self)@, r@) == reactor_wait(old(self)@, shutdown, now as nat),
    {
        if shutdown {
            return self.stop();
        }
        self.phase = ReactorPhase::Waiting;
        ReactorAction::Wait(until_heartbeat(self.last_outbound, now))
    }

    fn arm(&mut self, more: bool, now: u64) -> (r: ReactorAction)
        ensures
            (final(self)@, r@) == reactor_arm(old(self)@, more, now as nat),
    {
        if peer_silent(self.last_inbound, now) {
            return self.stop();
        }
        self.phase = ReactorPhase::Arming;
        ReactorAction::Arm(more)
    }

    /// Takes note of an event at `now`, and says what to do.
    pub fn step(&mut self, event: ReactorEvent, now: u64) -> (r: ReactorAction)
        requires
            old(self)@.held.len() + brought(event).len() <= isize::MAX,
        ensures
            (final(self)@, r@) == reactor_next(old(self)@, event, now as nat),
    {
        match self.phase {
            ReactorPhase::Over => self.stop(),
            ReactorPhase::Waiting => match event {
                ReactorEvent::Woke { ok, shutdown, readable } => if ok && !shutdown {
                    self.phase = ReactorPhase::Taking(readable);
                    ReactorAction::Take
                } else {
                    self.stop()
                },
                _ => self.stop(),
            },
            ReactorPhase::Taking(readable) => match event {
                ReactorEvent::Took(Queued::Envelope(e)) => {
                    self.last_outbound = now;
                    ReactorAction::Enqueue(e)
                },
                ReactorEvent::Took(Queued::Empty) => if readable {
                    self.phase = ReactorPhase::Reading;
                    ReactorAction::Read
                } else {
                    self.phase = ReactorPhase::Flushing;
                    ReactorAction::Flush
                },
                _ => self.stop(),
            },
            ReactorPhase::Reading => match event {
                ReactorEvent::Read { bytes, closed, failed } => {
                    self.decoder.extend_from(bytes.as_slice());
                    if closed || failed {
                        return self.stop();
                    }
                    let (envelopes, heard) = heard_frames(&mut self.decoder);
                    if heard {
                        self.last_inbound = now;
                    }
                    self.phase = ReactorPhase::Passing;
                    ReactorAction::Pass(envelopes)
                },
                _ => self.stop(),
            },
            ReactorPhase::Passing => match event {
                ReactorEvent::Passed(true) => {
                    self.phase = ReactorPhase::Flushing;
                    ReactorAction::Flush
                },
                _ => self.stop(),
            },
            ReactorPhase::Flushing => match event {
                ReactorEvent::Flushed { more, failed } => {
                    if failed {
                        return self.stop();
                    }
                    if heartbeat_due(self.last_outbound, now) {
                        self.phase = ReactorPhase::Beating;
                        return ReactorAction::BeatAndFlush(heartbeat());
                    }
                    self.arm(more, now)
                },
                _ => self.stop(),
            },
            ReactorPhase::Beating => match event {
                ReactorEvent::Flushed { more, failed } => {
                    if failed {
                        return self.stop();
                    }
                    self.last_outbound = now;
                    self.arm(more, now)
                },
                _ => self.stop(),
            },
            ReactorPhase::Arming => match event {
                ReactorEvent::Armed { ok, shutdown } => if ok {
                    self.wait(shutdown, now)
                } else {
                    self.stop()
                },
                _ => self.stop(),
            },
        }
    }
}

/// A reactor that has stopped does nothing more.
pub proof fn lemma_reactor_stays_stopped(s: ReactorState, event: ReactorEvent, now: nat)
    requires
        s.phase == ReactorPhase::Over,
    ensures
        reactor_next(s, event, now) == (s, ReactorAct::Stop),
{
}

/// A closing socket stops the reactor at the next look, and nothing is read or written
/// behind it.
pub proof fn lemma_reactor_heeds_shutdown(s: ReactorState, ok: bool, readable: bool, now: nat)
    ensures
        reactor_next(s, ReactorEvent::Woke { ok, shutdown: true, readable }, now).1 is Stop,
        reactor_next(s, ReactorEvent::Armed { ok, shutdown: true }, now).1 is Stop,
{
}

/// A round ends only while the peer was heard of within the timeout and a heartbeat went out
/// if one was due.
pub proof fn lemma_reactor_round_ends(s: ReactorState, event: ReactorEvent, now: nat)
    requires
        reactor_next(s, event, now).1 is Arm,
    ensures
        elapsed(s.last_inbound, now) < HEARTBEAT_TIMEOUT,
        elapsed(reactor_next(s, event, now).0.last_outbound, now) < HEARTBEAT_INTERVAL,
{
}

/// A peer that sends bytes but no whole frame is as silent as one that sends nothing.
pub proof fn lemma_reactor_needs_frames(s: ReactorState, event: ReactorEvent, now: nat)
    requires
        frames(s.held + brought(event)).len() == 0,
    ensures
        reactor_next(s, event, now).0.last_inbound == s.last_inbound,
{
}

/// The state of a reactor and what it did, after some events, each with its time.
pub open spec fn reactor_run(s: ReactorState, events: Seq<(ReactorEvent, nat)>) -> (
    ReactorState,
    Seq<ReactorAct>,
)
    decreases events.len(),
{
    if events.len() == 0 {
        (s, Seq::empty())
    } else {
        let (before, acts) = reactor_run(s, events.drop_last());
        let (after, act) = reactor_next(before, events.last().0, events.last().1);
        (after, acts.push(act))
    }
}

/// The bytes that some events brought.
pub open spec fn reactor_bytes(events: Seq<(ReactorEvent, nat)>) -> Seq<u8>
    decreases events.len(),
{
    if events.len() == 0 {
        Seq::empty()
    } else {
        reactor_bytes(events.drop_last()) + match events.last().0 {
            ReactorEvent::Read { bytes, closed, failed } => bytes@,
            _ => Seq::empty(),
        }
    }
}

/// The messages passed on to the broker.
pub open spec fn reactor_passed(acts: Seq<ReactorAct>) -> Seq<Message>
    decreases acts.len(),
{
    if acts.len() == 0 {
        Seq::empty()
    } else {
        reactor_passed(acts.drop_last()) + match acts.last() {
            ReactorAct::Pass(messages) => messages,
            _ => Seq::empty(),
        }
    }
}

/// The envelopes that the broker queued.
pub open spec fn reactor_took(events: Seq<(ReactorEvent, nat)>) -> Seq<Seq<u8>>
    decreases events.len(),
{
    if events.len() == 0 {
        Seq::empty()
    } else {
        reactor_took(events.drop_last()) + match events.last().0 {
            ReactorEvent::Took(Queued::Envelope(e)) => seq![bytes_view(e)],
            _ => Seq::empty(),
        }
    }
}

/// The envelopes put behind what is to be written, without the heartbeats.
pub open spec fn reactor_enqueued(acts: Seq<ReactorAct>) -> Seq<Seq<u8>>
    decreases acts.len(),
{
    if acts.len() == 0 {
        Seq::empty()
    } else {
        reactor_enqueued(acts.drop_last()) + match acts.last() {
            ReactorAct::Enqueue(e) => seq![e],
            _ => Seq::empty(),
        }
    }
}

/// Over the whole run of a reactor, however its bytes are cut into reads: what is passed on to
/// the broker is what the frames of all its bytes hold for it, in order; and what the broker
/// queued is put out to be written, in order, each once.
pub proof fn lemma_reactor_carries_all(s: ReactorState, events: Seq<(ReactorEvent, nat)>)
    requires
        frames(s.held).len() == 0,
        reactor_run(s, events).0.phase != ReactorPhase::Over,
    ensures
        ({
            let (t, acts) = reactor_run(s, events);
            let all = s.held + reactor_bytes(events);
            &&& reactor_passed(acts) == forwarded(frames(all))
            &&& t.held == unframed(all)
            &&& reactor_enqueued(acts) == reactor_took(events)
        }),
    decreases events.len(),
{
    if events.len() == 0 {
        assert(s.held + reactor_bytes(events) =~= s.held);
        crate::protocol::lemma_unframed_shorter(s.held);
        assert(frames(s.held) =~= Seq::<Seq<u8>>::empty());
        crate::conn::lemma_forwarded_each(Seq::empty(), Seq::empty(), Seq::empty());
    } else {
        let first = events.drop_last();
        let (before, acts) = reactor_run(s, first);
        let (event, now) = events.last();
        let (after, act) = reactor_next(before, event, now);
        lemma_reactor_carries_all(s, first);
        let all = s.held + reactor_bytes(first);
        let more = brought(event);
        assert(acts.push(act).drop_last() =~= acts);
        assert(s.held + reactor_bytes(events) =~= all + more);
        if event is Read {
            crate::conn::lemma_forward_any_cut(all, more);
            crate::protocol::lemma_frames_append(all, more);
            assert(reactor_enqueued(acts.push(act)) =~= reactor_enqueued(acts));
            assert(reactor_took(events) =~= reactor_took(first));
        } else {
            assert(all + more =~= all);
            assert(reactor_passed(acts.push(act)) =~= reactor_passed(acts));
            assert(reactor_enqueued(acts.push(act)) =~= reactor_took(events));
        }
    }
}

/// The time of the last frame is that of the last read that completed a whole frame, of
/// whatever type; nothing else changes it.
pub proof fn lemma_reactor_frame_is_life(s: ReactorState, event: ReactorEvent, now: nat)
    ensures
        reactor_next(s, event, now).0.last_inbound == (if s.phase == ReactorPhase::Reading && (
        event matches ReactorEvent::Read { bytes, closed, failed } && !closed && !failed && frames(
            s.held + bytes@,
        ).len() > 0) {
            now
        } else {
            s.last_inbound
        }),
{
}

/// The time of the last sending is that of the last envelope taken from the broker or of the
/// last heartbeat; nothing else changes it.
pub proof fn lemma_reactor_taken_is_sent(s: ReactorState, event: ReactorEvent, now: nat)
    ensures
        reactor_next(s, event, now).0.last_outbound == (if s.phase is Taking && (
        event matches ReactorEvent::Took(q) && q is Envelope) {
            now
        } else if s.phase == ReactorPhase::Beating && (
        event matches ReactorEvent::Flushed { more, failed } && !failed) {
            now
        } else {
            s.last_outbound
        }),
{
}

/// What a reactor does next, and when it stops: it waits no longer than until a heartbeat is
/// due; takes all that is queued; reads if there is something to read, and passes that on;
/// writes; beats if nothing was sent for long; stops if the peer was silent for too long; and
/// says what to wait for. A failure, a close or anything out of turn stops it.
pub proof fn lemma_reactor_does(s: ReactorState, event: ReactorEvent, now: nat)
    requires
        s.phase != ReactorPhase::Over,
    ensures
        ({
            let (t, act) = reactor_next(s, event, now);
            let silent = now >= s.last_inbound + 15_000_000_000;
            let quiet = now >= s.last_outbound + 5_000_000_000;
            match (s.phase, event) {
                (
                    ReactorPhase::Waiting,
                    ReactorEvent::Woke { ok, shutdown, readable },
                ) => if ok && !shutdown {
                    act is Take && t.phase == ReactorPhase::Taking(readable)
                } else {
                    act is Stop
                },
                (ReactorPhase::Taking(readable), ReactorEvent::Took(q)) => match q {
                    Queued::Envelope(e) => act == ReactorAct::Enqueue(bytes_view(e)) && t.phase
                        == s.phase,
                    Queued::Empty => if readable {
                        act is Read && t.phase == ReactorPhase::Reading
                    } else {
                        act is Flush && t.phase == ReactorPhase::Flushing
                    },
                    Queued::Dropped => act is Stop,
                },
                (
                    ReactorPhase::Reading,
                    ReactorEvent::Read { bytes, closed, failed },
                ) => if closed || failed {
                    act is Stop
                } else {
                    act is Pass && t.phase == ReactorPhase::Passing
                },
                (ReactorPhase::Passing, ReactorEvent::Passed(ok)) => if ok {
                    act is Flush && t.phase == ReactorPhase::Flushing
                } else {
                    act is Stop
                },
                (ReactorPhase::Flushing, ReactorEvent::Flushed { more, failed }) => if failed {
                    act is Stop
                } else if quiet {
                    act == ReactorAct::BeatAndFlush(seq![2u8]) && t.phase == ReactorPhase::Beating
                } else if silent {
                    act is Stop
                } else {
                    act == ReactorAct::Arm(more) && t.phase == ReactorPhase::Arming
                },
                (ReactorPhase::Beating, ReactorEvent::Flushed { more, failed }) => if failed
                    || silent {
                    act is Stop
                } else {
                    act == ReactorAct::Arm(more) && t.phase == ReactorPhase::Arming
                },
                (ReactorPhase::Arming, ReactorEvent::Armed { ok, shutdown }) => if ok
                    && !shutdown {
                    &&& t.phase == ReactorPhase::Waiting
                    &&& act matches ReactorAct::Wait(span)
                    &&& quiet ==> span == 0
                    &&& !quiet && now >= s.last_outbound ==> now + span == s.last_outbound
                        + 5_000_000_000
                    &&& now < s.last_outbound ==> span == 5_000_000_000
                } else {
                    act is Stop
                },
                _ => act is Stop,
            }
        }),
        reactor_next(s, event, now).1 is Stop <==> reactor_next(s, event, now).0.phase
            == ReactorPhase::Over,
        !(event is Read) ==> reactor_next(s, event, now).0.held == s.held,
{
    assert(encoded(Message::Heartbeat) =~= seq![2u8]);
}

} // verus!
