//! A WebSocket connection as a byte stream.

use vstd::prelude::*;
use crate::ws::frame::{
    client_bytes, lemma_opcodes, lemma_parse_client, lemma_parse_consumes, lemma_parse_extend,
    lemma_server_bytes, parse, parse_client_frame, server_bytes, server_frame, Frame, Parsed,
    OP_BIN, OP_CLOSE, OP_PONG,
};
use crate::be::{push_be_u16, to_be};

verus! {

// What a client's bytes amount to --------------------------------------------

/// What a whole frame of a client brings about.
pub enum WsEvent {
    /// Bytes of the stream.
    Payload(Seq<u8>),
    /// A ping, to be answered with these bytes.
    Ping(Seq<u8>),
    /// The end of the stream, to be answered with a close of this code.
    End(u16),
}

/// The events of the whole frames at the front of `raw`, up to the first that ends the
/// stream. A pong brings about nothing.
pub open spec fn events(raw: Seq<u8>) -> Seq<WsEvent>
    decreases raw.len(),
{
    let (frame, n) = parse(raw);
    match frame {
        Frame::NeedMore => Seq::empty(),
        Frame::Close(code) => seq![WsEvent::End(code)],
        Frame::Protocol(code) => seq![WsEvent::End(code)],
        Frame::Data(p) => if 0 < n <= raw.len() {
            seq![WsEvent::Payload(p)] + events(raw.skip(n as int))
        } else {
            Seq::empty()
        },
        Frame::Ping(p) => if 0 < n <= raw.len() {
            seq![WsEvent::Ping(p)] + events(raw.skip(n as int))
        } else {
            Seq::empty()
        },
        Frame::Pong => if 0 < n <= raw.len() {
            events(raw.skip(n as int))
        } else {
            Seq::empty()
        },
    }
}

/// What is left of `raw` behind its whole frames, or from the end of the stream on.
pub open spec fn unparsed(raw: Seq<u8>) -> Seq<u8>
    decreases raw.len(),
{
    let (frame, n) = parse(raw);
    if (frame is Data || frame is Ping || frame is Pong) && 0 < n <= raw.len() {
        unparsed(raw.skip(n as int))
    } else {
        raw
    }
}

/// The bytes of the stream among some events.
pub open spec fn payloads(evs: Seq<WsEvent>) -> Seq<u8>
    decreases evs.len(),
{
    if evs.len() == 0 {
        Seq::empty()
    } else {
        payloads(evs.drop_last()) + match evs.last() {
            WsEvent::Payload(p) => p,
            _ => Seq::empty(),
        }
    }
}

/// The stream has ended within `raw`.
pub open spec fn ended(raw: Seq<u8>) -> bool {
    parse(unparsed(raw)).0 is Close || parse(unparsed(raw)).0 is Protocol
}

/// How a client's bytes are cut into reads does not matter: what follows is read as if it
/// had arrived together with what is left of the bytes before it.
pub proof fn lemma_events_append(a: Seq<u8>, b: Seq<u8>)
    ensures
        ended(a) ==> events(a + b) == events(a),
        !ended(a) ==> events(a + b) == events(a) + events(unparsed(a) + b),
    decreases a.len(),
{
    let (frame, n) = parse(a);
    lemma_parse_consumes(a);
    if frame is NeedMore {
        assert(events(a) + events(a + b) =~= events(a + b));
    } else {
        lemma_parse_extend(a, b);
        if frame is Data || frame is Ping || frame is Pong {
            let rest = a.skip(n as int);
            assert((a + b).skip(n as int) =~= rest + b);
            lemma_events_append(rest, b);
            assert(unparsed(a) == unparsed(rest));
            if !ended(a) {
                assert(events(a + b) =~= events(a) + events(unparsed(a) + b));
            }
        }
    }
}

/// Payload frames, one for each of `parts`, under its mask: a binary frame where `first`
/// says that it starts a message, else a continuation; final where `fin` says so.
pub open spec fn binary_frames(
    parts: Seq<Seq<u8>>,
    masks: Seq<Seq<u8>>,
    first: Seq<bool>,
    fin: Seq<bool>,
) -> Seq<u8>
    decreases parts.len(),
{
    if parts.len() == 0 {
        Seq::empty()
    } else {
        client_bytes(
            fin[0],
            if first[0] {
                OP_BIN
            } else {
                0
            },
            masks[0],
            parts[0],
        ) + binary_frames(parts.skip(1), masks.skip(1), first.skip(1), fin.skip(1))
    }
}

/// `parts` one after the other.
pub open spec fn concat(parts: Seq<Seq<u8>>) -> Seq<u8>
    decreases parts.len(),
{
    if parts.len() == 0 {
        Seq::empty()
    } else {
        parts[0] + concat(parts.skip(1))
    }
}

pub(crate) proof fn lemma_payloads_cons(e: WsEvent, evs: Seq<WsEvent>)
    ensures
        payloads(seq![e] + evs) == payloads(seq![e]) + payloads(evs),
        payloads(seq![e]) == match e {
            WsEvent::Payload(p) => p,
            _ => Seq::empty(),
        },
    decreases evs.len(),
{
    assert(seq![e].drop_last() =~= Seq::<WsEvent>::empty());
    let x = match e {
        WsEvent::Payload(p) => p,
        _ => Seq::empty(),
    };
    assert(payloads(seq![e].drop_last()) =~= Seq::<u8>::empty());
    assert(payloads(seq![e]) =~= x);
    if evs.len() == 0 {
        assert(seq![e] + evs =~= seq![e]);
        assert(payloads(evs) =~= Seq::<u8>::empty());
        assert(x + payloads(evs) =~= x);
    } else {
        lemma_payloads_cons(e, evs.drop_last());
        assert((seq![e] + evs).drop_last() =~= seq![e] + evs.drop_last());
        assert((seq![e] + evs).last() == evs.last());
        assert(payloads(seq![e] + evs) =~= payloads(seq![e]) + payloads(evs));
    }
}

/// The payloads of a client's binary frames and continuations, one after the other, are
/// the stream.
pub proof fn lemma_stream_is_payloads(
    parts: Seq<Seq<u8>>,
    masks: Seq<Seq<u8>>,
    first: Seq<bool>,
    fin: Seq<bool>,
)
    requires
        masks.len() == parts.len(),
        first.len() == parts.len(),
        fin.len() == parts.len(),
        forall|i: int| 0 <= i < masks.len() ==> (#[trigger] masks[i]).len() == 4,
        forall|i: int|
            0 <= i < parts.len() ==> (#[trigger] parts[i]).len() < 0x8000_0000_0000_0000,
    ensures
        payloads(events(binary_frames(parts, masks, first, fin))) == concat(parts),
        !ended(binary_frames(parts, masks, first, fin)),
        unparsed(binary_frames(parts, masks, first, fin)) == Seq::<u8>::empty(),
    decreases parts.len(),
{
    let raw = binary_frames(parts, masks, first, fin);
    if parts.len() > 0 {
        let op: u8 = if first[0] {
            OP_BIN
        } else {
            0
        };
        let rest = binary_frames(parts.skip(1), masks.skip(1), first.skip(1), fin.skip(1));
        let frame = client_bytes(fin[0], op, masks[0], parts[0]);
        lemma_parse_client(fin[0], op, masks[0], parts[0], rest);
        assert forall|i: int| 0 <= i < masks.skip(1).len() implies (
        #[trigger] masks.skip(1)[i]).len() == 4 by {
            assert(masks.skip(1)[i] == masks[i + 1]);
        }
        assert forall|i: int| 0 <= i < parts.skip(1).len() implies (
        #[trigger] parts.skip(1)[i]).len() < 0x8000_0000_0000_0000 by {
            assert(parts.skip(1)[i] == parts[i + 1]);
        }
        lemma_stream_is_payloads(parts.skip(1), masks.skip(1), first.skip(1), fin.skip(1));
        assert(raw.skip(frame.len() as int) =~= rest);
        assert(frame.len() > 0);
        assert(events(raw) == seq![WsEvent::Payload(parts[0])] + events(rest));
        lemma_payloads_cons(WsEvent::Payload(parts[0]), events(rest));
    } else {
        assert(payloads(events(raw)) =~= Seq::<u8>::empty());
    }
}

// The blocking adapter -------------------------------------------------------

/// The state of a stream: payload not yet handed out, bytes not yet parsed, whether a
/// close went out, whether the stream is over.
pub struct StreamState {
    pub pending: Seq<u8>,
    pub raw: Seq<u8>,
    pub close_sent: bool,
    pub eof: bool,
}

/// `raw` behind the frames at its front that bring nothing: pongs and empty payloads.
pub open spec fn skip_silent(raw: Seq<u8>) -> Seq<u8>
    decreases raw.len(),
{
    let (frame, n) = parse(raw);
    if (frame is Pong || frame == Frame::Data(Seq::empty())) && 0 < n <= raw.len() {
        skip_silent(raw.skip(n as int))
    } else {
        raw
    }
}

/// The bytes of a close frame.
pub open spec fn close_bytes(code: u16) -> Seq<u8> {
    server_bytes(OP_CLOSE, to_be(code as nat, 2))
}

/// What a read on a stream comes to.
pub enum ReadStep {
    /// Bytes of the stream.
    Bytes(Vec<u8>),
    /// The stream is over.
    Eof,
    /// Read from the connection, and hand in what it brings.
    NeedInput,
    /// Send this, which has to succeed, and read again.
    Reply(Vec<u8>),
    /// Send this, whether or not that succeeds, and read again.
    Farewell(Vec<u8>),
}

/// `r` and `new` are what a read of up to `max` bytes on `old` comes to.
pub open spec fn read_step(old: StreamState, max: nat, new: StreamState, r: ReadStep) -> bool {
    let raw = skip_silent(old.raw);
    let (frame, n) = parse(raw);
    if old.pending.len() > 0 {
        let k = if max < old.pending.len() {
            max
        } else {
            old.pending.len()
        };
        &&& r matches ReadStep::Bytes(b) && b@ == old.pending.take(k as int)
        &&& new == (StreamState { pending: old.pending.skip(k as int), ..old })
    } else if old.eof {
        r is Eof && new == old
    } else {
        match frame {
            Frame::NeedMore => r is NeedInput && new == (StreamState { raw, ..old }),
            Frame::Pong => false,
            Frame::Data(p) => {
                let k = if max < p.len() {
                    max
                } else {
                    p.len()
                };
                &&& r matches ReadStep::Bytes(b) && b@ == p.take(k as int)
                &&& new == (StreamState {
                    pending: p.skip(k as int),
                    raw: raw.skip(n as int),
                    ..old
                })
            },
            Frame::Ping(p) => {
                &&& r matches ReadStep::Reply(b) && b@ == server_bytes(OP_PONG, p)
                &&& new == (StreamState { raw: raw.skip(n as int), ..old })
            },
            Frame::Close(code) => {
                &&& if old.close_sent {
                    r is Eof
                } else {
                    r matches ReadStep::Farewell(b) && b@ == close_bytes(code)
                }
                &&& new == (StreamState {
                    raw: raw.skip(n as int),
                    close_sent: true,
                    eof: true,
                    ..old
                })
            },
            Frame::Protocol(code) => {
                &&& if old.close_sent {
                    r is Eof
                } else {
                    r matches ReadStep::Farewell(b) && b@ == close_bytes(code)
                }
                &&& new == (StreamState { raw, close_sent: true, eof: true, ..old })
            },
        }
    }
}

/// The bytes that a stream has still to give from what has arrived.
pub open spec fn future(s: StreamState) -> Seq<u8> {
    if s.eof {
        s.pending
    } else {
        s.pending + payloads(events(s.raw))
    }
}

proof fn lemma_skip_silent(raw: Seq<u8>)
    ensures
        payloads(events(skip_silent(raw))) == payloads(events(raw)),
        !(parse(skip_silent(raw)).0 is Pong),
        parse(skip_silent(raw)).0 != Frame::Data(Seq::empty()),
    decreases raw.len(),
{
    let (frame, n) = parse(raw);
    lemma_parse_consumes(raw);
    if frame is Pong || frame == Frame::Data(Seq::empty()) {
        let rest = raw.skip(n as int);
        lemma_skip_silent(rest);
        if frame == Frame::Data(Seq::<u8>::empty()) {
            lemma_payloads_cons(WsEvent::Payload(Seq::empty()), events(rest));
            assert(payloads(events(raw)) =~= payloads(events(rest)));
        }
    }
}

/// Nothing of the stream is lost, added or reordered by a read: what it hands out is the
/// front of what the stream had to give, and the rest is still to come.
pub proof fn lemma_read_conserves(old: StreamState, max: nat, new: StreamState, r: ReadStep)
    requires
        read_step(old, max, new, r),
    ensures
        future(old) == (match r {
            ReadStep::Bytes(b) => b@,
            _ => Seq::empty(),
        }) + future(new),
{
    let raw = skip_silent(old.raw);
    let (frame, n) = parse(raw);
    lemma_skip_silent(old.raw);
    lemma_parse_consumes(raw);
    let given = match r {
        ReadStep::Bytes(b) => b@,
        _ => Seq::empty(),
    };
    if old.pending.len() > 0 {
        assert(future(old) =~= given + future(new));
    } else if old.eof {
        assert(future(old) =~= given + future(new));
    } else {
        assert(future(old) =~= payloads(events(raw)));
        match frame {
            Frame::Data(p) => {
                lemma_payloads_cons(WsEvent::Payload(p), events(raw.skip(n as int)));
                assert(future(old) =~= given + future(new));
            },
            Frame::Ping(p) => {
                lemma_payloads_cons(WsEvent::Ping(p), events(raw.skip(n as int)));
                assert(future(old) =~= given + future(new));
            },
            Frame::Close(code) => {
                lemma_payloads_cons(WsEvent::End(code), Seq::empty());
                assert(future(old) =~= given + future(new));
            },
            Frame::Protocol(code) => {
                lemma_payloads_cons(WsEvent::End(code), Seq::empty());
                assert(future(old) =~= given + future(new));
            },
            _ => {
                assert(future(old) =~= given + future(new));
            },
        }
    }
}

proof fn lemma_payloads_add(a: Seq<WsEvent>, b: Seq<WsEvent>)
    ensures
        payloads(a + b) == payloads(a) + payloads(b),
    decreases b.len(),
{
    if b.len() == 0 {
        assert(a + b =~= a);
        assert(payloads(a) + payloads(b) =~= payloads(a));
    } else {
        lemma_payloads_add(a, b.drop_last());
        assert((a + b).drop_last() =~= a + b.drop_last());
        assert(payloads(a + b) =~= payloads(a) + payloads(b));
    }
}

proof fn lemma_unparsed_append(a: Seq<u8>, b: Seq<u8>)
    requires
        !ended(a),
    ensures
        unparsed(a + b) == unparsed(unparsed(a) + b),
    decreases a.len(),
{
    let (frame, n) = parse(a);
    lemma_parse_consumes(a);
    if frame is Data || frame is Ping || frame is Pong {
        lemma_parse_extend(a, b);
        let rest = a.skip(n as int);
        assert((a + b).skip(n as int) =~= rest + b);
        assert(unparsed(a) == unparsed(rest));
        lemma_unparsed_append(rest, b);
    }
}

proof fn lemma_silent_unparsed(raw: Seq<u8>)
    ensures
        unparsed(skip_silent(raw)) == unparsed(raw),
    decreases raw.len(),
{
    let (frame, n) = parse(raw);
    lemma_parse_consumes(raw);
    if (frame is Pong || frame == Frame::Data(Seq::empty())) && 0 < n <= raw.len() {
        lemma_silent_unparsed(raw.skip(n as int));
    }
}

// Whole runs -------------------------------------------------------------------

/// Something that is done with a stream.
pub enum Move {
    /// A read of up to `max` bytes, and what it comes to.
    Read { max: nat, r: ReadStep },
    /// Handing in what the connection brought; no bytes mean that the peer closed.
    Feed(Seq<u8>),
}

/// The states of a stream that starts with `leftover`, and what is done with it in each:
/// reads of at least one byte, and what the connection brings whenever a read asks for it.
pub open spec fn is_run(leftover: Seq<u8>, states: Seq<StreamState>, moves: Seq<Move>) -> bool {
    &&& states.len() == moves.len() + 1
    &&& states[0] == (StreamState {
        pending: Seq::empty(),
        raw: leftover,
        close_sent: false,
        eof: false,
    })
    &&& forall|i: int|
        0 <= i < moves.len() ==> match #[trigger] moves[i] {
            Move::Read { max, r } => max > 0 && read_step(states[i], max, states[i + 1], r),
            Move::Feed(bytes) => {
                &&& i > 0
                &&& moves[i - 1] matches Move::Read { max, r } && r is NeedInput
                &&& states[i + 1] == (StreamState {
                    raw: states[i].raw + bytes,
                    eof: states[i].eof || bytes.len() == 0,
                    ..states[i]
                })
            },
        }
}

/// The bytes that the connection brought.
pub open spec fn brought(moves: Seq<Move>) -> Seq<u8>
    decreases moves.len(),
{
    if moves.len() == 0 {
        Seq::empty()
    } else {
        brought(moves.drop_last()) + match moves.last() {
            Move::Feed(bytes) => bytes,
            _ => Seq::empty(),
        }
    }
}

/// The bytes that the reads gave.
pub open spec fn gave(moves: Seq<Move>) -> Seq<u8>
    decreases moves.len(),
{
    if moves.len() == 0 {
        Seq::empty()
    } else {
        gave(moves.drop_last()) + match moves.last() {
            Move::Read { max, r } => match r {
                ReadStep::Bytes(b) => b@,
                _ => Seq::empty(),
            },
            _ => Seq::empty(),
        }
    }
}

#[verifier::spinoff_prover]
#[verifier::rlimit(60)]
proof fn lemma_run(leftover: Seq<u8>, states: Seq<StreamState>, moves: Seq<Move>)
    requires
        is_run(leftover, states, moves),
    ensures
        ({
            let all = leftover + brought(moves);
            let s = states.last();
            &&& gave(moves) + future(s) == payloads(events(all))
            &&& !s.eof ==> unparsed(all) == unparsed(s.raw)
            &&& (moves.len() > 0 && (moves.last() matches Move::Read { max, r } && r is NeedInput))
                ==> !s.eof && s.pending.len() == 0 && parse(s.raw).0 is NeedMore
        }),
    decreases moves.len(),
{
    if moves.len() == 0 {
        assert(leftover + brought(moves) =~= leftover);
        assert(gave(moves) + future(states.last()) =~= payloads(events(leftover)));
    } else {
        let k = moves.len() - 1;
        let before = moves.drop_last();
        let old = states[k];
        let new = states[k + 1];
        assert(states.drop_last().last() == old);
        assert forall|i: int| 0 <= i < before.len() implies match #[trigger] before[i] {
            Move::Read { max, r } => max > 0 && read_step(
                states.drop_last()[i],
                max,
                states.drop_last()[i + 1],
                r,
            ),
            Move::Feed(bytes) => {
                &&& i > 0
                &&& before[i - 1] matches Move::Read { max, r } && r is NeedInput
                &&& states.drop_last()[i + 1] == (StreamState {
                    raw: states.drop_last()[i].raw + bytes,
                    eof: states.drop_last()[i].eof || bytes.len() == 0,
                    ..states.drop_last()[i]
                })
            },
        } by {
            assert(before[i] == moves[i]);
        }
        lemma_run(leftover, states.drop_last(), before);
        let all = leftover + brought(before);
        assert(moves[k] == moves.last());
        match moves[k] {
            Move::Read { max, r } => {
                assert(leftover + brought(moves) =~= all);
                lemma_read_conserves(old, max, new, r);
                assert(gave(moves) + future(new) =~= gave(before) + future(old));
                let raw = skip_silent(old.raw);
                lemma_silent_unparsed(old.raw);
                lemma_parse_consumes(raw);
                lemma_skip_silent(old.raw);
            },
            Move::Feed(bytes) => {
                assert(before.last() == moves[k - 1]);
                assert(leftover + brought(moves) =~= all + bytes);
                assert(gave(moves) =~= gave(before));
                lemma_parse_consumes(old.raw);
                assert(unparsed(old.raw) == old.raw);
                assert(!ended(all));
                lemma_events_append(all, bytes);
                lemma_unparsed_append(all, bytes);
                lemma_payloads_add(events(all), events(unparsed(all) + bytes));
                assert(events(old.raw) =~= Seq::<WsEvent>::empty());
                assert(future(old) =~= Seq::<u8>::empty());
                if bytes.len() == 0 {
                    assert(old.raw + bytes =~= old.raw);
                    assert(all + bytes =~= all);
                    assert(future(new) =~= Seq::<u8>::empty());
                } else {
                    assert(future(new) =~= payloads(events(old.raw + bytes)));
                }
                assert(gave(moves) + future(new) =~= payloads(events(all + bytes)));
            },
        }
    }
}

/// However a client's bytes are cut into what the connection brings, and however much each
/// read asks for: what the reads give is the payload of the client's binary and continuation
/// frames, in order, up to a close, a violation of the protocol or the end of the bytes. It
/// is all of that once a read gives the end.
pub proof fn lemma_reads_give_payloads(
    leftover: Seq<u8>,
    states: Seq<StreamState>,
    moves: Seq<Move>,
)
    requires
        is_run(leftover, states, moves),
    ensures
        gave(moves).is_prefix_of(payloads(events(leftover + brought(moves)))),
        moves.len() > 0 && (moves.last() matches Move::Read { max, r } && r is Eof) ==> gave(moves)
            == payloads(events(leftover + brought(moves))),
{
    lemma_run(leftover, states, moves);
    let s = states.last();
    assert(gave(moves) =~= (gave(moves) + future(s)).subrange(0, gave(moves).len() as int));
    if moves.len() > 0 && (moves.last() matches Move::Read { max, r } && r is Eof) {
        let k = moves.len() - 1;
        assert(moves[k] == moves.last());
        assert(states[k + 1] == s);
        lemma_skip_silent(states[k].raw);
        assert(gave(moves) + future(s) =~= gave(moves));
    }
}

/// Behind the end there is only the end.
pub proof fn lemma_end_stays(
    old: StreamState,
    max: nat,
    new: StreamState,
    r: ReadStep,
    later: nat,
    after: StreamState,
    s: ReadStep,
)
    requires
        read_step(old, max, new, r),
        r is Eof,
        read_step(new, later, after, s),
    ensures
        s is Eof,
        after == new,
{
    lemma_skip_silent(old.raw);
}

/// A WebSocket connection as a byte stream, for a caller that reads and writes by turns.
pub struct WsStream {
    rawbuf: Vec<u8>,
    payload: Vec<u8>,
    payload_pos: usize,
    close_sent: bool,
    eof: bool,
}

impl View for WsStream {
    type V = StreamState;

    closed spec fn view(&self) -> StreamState {
        StreamState {
            pending: self.payload@.skip(self.payload_pos as int),
            raw: self.rawbuf@,
            close_sent: self.close_sent,
            eof: self.eof,
        }
    }
}

/// What [`WsStream::pump`] comes to.
enum Pumped {
    Payload,
    NeedMore,
    Reply(Vec<u8>),
    Ended(Option<Vec<u8>>),
}

/// Removes the first `n` bytes of `v`.
pub(crate) fn drain_front(v: &mut Vec<u8>, n: usize)
    requires
        n <= old(v)@.len(),
    ensures
        final(v)@ == old(v)@.skip(n as int),
{
    let rest: Vec<u8> = v.split_off(n);
    assert(rest@ =~= old(v)@.skip(n as int));
    *v = rest;
}

impl WsStream {
    /// The read cursor stands within the payload.
    pub closed spec fn wf(self) -> bool {
        self.payload_pos <= self.payload@.len()
    }

    /// A stream whose first bytes are `leftover`.
    pub fn new(leftover: &[u8]) -> (r: Self)
        ensures
            r.wf(),
            r@ == (StreamState {
                pending: Seq::empty(),
                raw: leftover@,
                close_sent: false,
                eof: false,
            }),
    {
        let mut rawbuf: Vec<u8> = Vec::new();
        rawbuf.extend_from_slice(leftover);
        assert(rawbuf@ =~= leftover@);
        let r = WsStream {
            rawbuf,
            payload: Vec::new(),
            payload_pos: 0,
            close_sent: false,
            eof: false,
        };
        assert(r@.pending =~= Seq::<u8>::empty());
        r
    }

    /// The close frame to send, unless one was sent before.
    pub fn send_close(&mut self, code: u16) -> (r: Option<Vec<u8>>)
        requires
            old(self).wf(),
        ensures
            final(self).wf(),
            final(self)@ == (StreamState { close_sent: true, ..old(self)@ }),
            match r {
                Some(b) => !old(self)@.close_sent && b@ == close_bytes(code),
                None => old(self)@.close_sent,
            },
    {
        if self.close_sent {
            return None;
        }
        self.close_sent = true;
        let mut body: Vec<u8> = Vec::new();
        push_be_u16(&mut body, code);
        assert(body@ =~= to_be(code as nat, 2));
        Some(server_frame(OP_CLOSE, body.as_slice()))
    }

    /// Parses frames until one brings payload, asks for a reply or ends the stream, or
    /// more bytes are needed.
    fn pump(&mut self) -> (r: Pumped)
        requires
            old(self).wf(),
            old(self)@.pending.len() == 0,
            !old(self)@.eof,
        ensures
            final(self).wf(),
            ({
                let raw = skip_silent(old(self)@.raw);
                let (frame, n) = parse(raw);
                let o = old(self)@;
                match r {
                    Pumped::NeedMore => frame is NeedMore && final(self)@ == (StreamState {
                        raw,
                        ..o
                    }),
                    Pumped::Payload => (frame matches Frame::Data(p) && p.len() > 0 && final(self)@ == (StreamState { pending: p, raw: raw.skip(n as int), ..o })),
                    Pumped::Reply(b) => (frame matches Frame::Ping(p) && b@ == server_bytes(
                        OP_PONG,
                        p,
                    ) && final(self)@ == (StreamState { raw: raw.skip(n as int), ..o })),
                    Pumped::Ended(b) => (frame is Close || frame is Protocol) && final(self)@
                        == (StreamState {
                        raw: if frame is Close {
                            raw.skip(n as int)
                        } else {
                            raw
                        },
                        close_sent: true,
                        eof: true,
                        ..o
                    }) && match b {
                        Some(bytes) => !o.close_sent && bytes@ == close_bytes(
                            match frame {
                                Frame::Close(code) => code,
                                Frame::Protocol(code) => code,
                                _ => 0,
                            },
                        ),
                        None => o.close_sent,
                    },
                }
            }),
    {
        loop
            invariant
                self.wf(),
                self@.pending.len() == 0,
                !self@.eof,
                self@.close_sent == old(self)@.close_sent,
                skip_silent(self@.raw) == skip_silent(old(self)@.raw),
                self@.pending == old(self)@.pending,
                self@.eof == old(self)@.eof,
            decreases self@.raw.len(),
        {
            proof {
                lemma_parse_consumes(self@.raw);
                lemma_skip_silent(self@.raw);
            }
            let (parsed, consumed) = parse_client_frame(self.rawbuf.as_slice());
            match parsed {
                Parsed::NeedMore => {
                    return Pumped::NeedMore;
                },
                Parsed::Data(p) => {
                    drain_front(&mut self.rawbuf, consumed);
                    if p.len() > 0 {
                        self.payload = p;
                        self.payload_pos = 0;
                        assert(self@.pending =~= p@);
                        return Pumped::Payload;
                    }
                    assert(p@ =~= Seq::<u8>::empty());
                },
                Parsed::Ping(p) => {
                    drain_front(&mut self.rawbuf, consumed);
                    return Pumped::Reply(server_frame(OP_PONG, p.as_slice()));
                },
                Parsed::Pong => {
                    drain_front(&mut self.rawbuf, consumed);
                },
                Parsed::Close(code) => {
                    drain_front(&mut self.rawbuf, consumed);
                    let farewell: Option<Vec<u8>> = self.send_close(code);
                    self.eof = true;
                    return Pumped::Ended(farewell);
                },
                Parsed::Protocol(code) => {
                    let farewell: Option<Vec<u8>> = self.send_close(code);
                    self.eof = true;
                    return Pumped::Ended(farewell);
                },
            }
        }
    }

    /// The payload held, up to `max` bytes of it.
    fn take_pending(&mut self, max: usize) -> (r: Vec<u8>)
        requires
            old(self).wf(),
        ensures
            final(self).wf(),
            ({
                let o = old(self)@;
                let k = if max < o.pending.len() {
                    max as int
                } else {
                    o.pending.len() as int
                };
                r@ == o.pending.take(k) && final(self)@ == (StreamState {
                    pending: o.pending.skip(k),
                    ..o
                })
            }),
    {
        let ghost o = self@;
        let held: usize = self.payload.len() - self.payload_pos;
        let n: usize = if max < held {
            max
        } else {
            held
        };
        let from: usize = self.payload_pos;
        let part: &[u8] = vstd::slice::slice_subrange(self.payload.as_slice(), from, from + n);
        let mut out: Vec<u8> = Vec::new();
        out.extend_from_slice(part);
        assert(out@ =~= o.pending.take(n as int));
        self.payload_pos = self.payload_pos + n;
        if self.payload_pos == self.payload.len() {
            self.payload.clear();
            self.payload_pos = 0;
        }
        assert(self@.pending =~= o.pending.skip(n as int));
        out
    }

    /// Reads up to `max` bytes of the stream.
    pub fn read(&mut self, max: usize) -> (r: ReadStep)
        requires
            old(self).wf(),
        ensures
            final(self).wf(),
            read_step(old(self)@, max as nat, final(self)@, r),
    {
        if self.payload_pos < self.payload.len() {
            return ReadStep::Bytes(self.take_pending(max));
        }
        assert(self@.pending =~= Seq::<u8>::empty());
        if self.eof {
            return ReadStep::Eof;
        }
        proof {
            lemma_skip_silent(self@.raw);
        }
        match self.pump() {
            Pumped::NeedMore => ReadStep::NeedInput,
            Pumped::Payload => ReadStep::Bytes(self.take_pending(max)),
            Pumped::Reply(b) => ReadStep::Reply(b),
            Pumped::Ended(Some(b)) => ReadStep::Farewell(b),
            Pumped::Ended(None) => ReadStep::Eof,
        }
    }

    /// Takes in what a read from the connection brought; no bytes mean that the peer
    /// closed.
    pub fn feed(&mut self, bytes: &[u8])
        requires
            old(self).wf(),
        ensures
            final(self).wf(),
            final(self)@ == (StreamState {
                raw: old(self)@.raw + bytes@,
                eof: old(self)@.eof || bytes@.len() == 0,
                ..old(self)@
            }),
    {
        if bytes.len() == 0 {
            self.eof = true;
        }
        self.rawbuf.extend_from_slice(bytes);
        assert(self.rawbuf@ =~= old(self)@.raw + bytes@);
    }

    /// The one binary frame that carries `data`.
    pub fn write(&self, data: &[u8]) -> (r: Vec<u8>)
        ensures
            r@ == server_bytes(OP_BIN, data@),
    {
        server_frame(OP_BIN, data)
    }
}

// What a client's frames are answered with --------------------------------------

/// A close frame is four bytes: its opcode, its length and its code.
pub proof fn lemma_close_bytes(code: u16)
    ensures
        close_bytes(code) == seq![0x88u8, 2u8, (code / 256) as u8, (code % 256) as u8],
{
    reveal_with_fuel(to_be, 3);
    lemma_server_bytes(OP_CLOSE, to_be(code as nat, 2));
    assert(close_bytes(code) =~= seq![0x88u8, 2u8, (code / 256) as u8, (code % 256) as u8]);
}

/// What each whole frame of a client brings about, whatever comes behind it: binary frames and
/// continuations bring their payload, pings a reply, pongs nothing, closes and frames of other
/// types the end.
pub proof fn lemma_events_of(fin: bool, opcode: u8, mask: Seq<u8>, payload: Seq<u8>, rest: Seq<u8>)
    requires
        opcode < 16,
        opcode >= 8 ==> fin && payload.len() <= 125,
        mask.len() == 4,
        payload.len() < 0x8000_0000_0000_0000,
    ensures
        ({
            let raw = client_bytes(fin, opcode, mask, payload) + rest;
            &&& opcode == 0 || opcode == 2 ==> events(raw) == seq![WsEvent::Payload(payload)]
                + events(rest) && unparsed(raw) == unparsed(rest)
            &&& opcode == 9 ==> events(raw) == seq![WsEvent::Ping(payload)] + events(rest)
                && unparsed(raw) == unparsed(rest)
            &&& opcode == 10 ==> events(raw) == events(rest) && unparsed(raw) == unparsed(rest)
            &&& opcode == 1 ==> events(raw) == seq![WsEvent::End(1003)]
            &&& opcode == 8 && payload.len() < 2 ==> events(raw) == seq![WsEvent::End(1000)]
            &&& opcode == 8 && payload.len() >= 2 ==> events(raw) == seq![
                WsEvent::End((payload[0] * 256 + payload[1]) as u16),
            ]
            &&& 3 <= opcode <= 7 || opcode >= 11 ==> events(raw) == seq![WsEvent::End(1002)]
        }),
{
    let front = client_bytes(fin, opcode, mask, payload);
    lemma_parse_client(fin, opcode, mask, payload, rest);
    lemma_opcodes(opcode, payload);
    assert((front + rest).skip(front.len() as int) =~= rest);
}

/// What a read comes to when nothing is held back and a client's frame stands at the front.
/// The bytes of a binary frame are handed out; a ping is answered with a pong of the same
/// bytes, a close with a close of its code, and a frame of another type with the code for it;
/// after a close the stream is over. A frame is used up, and nothing behind it.
pub proof fn lemma_read_answers(
    s: StreamState,
    fin: bool,
    opcode: u8,
    mask: Seq<u8>,
    payload: Seq<u8>,
    rest: Seq<u8>,
    max: nat,
    new: StreamState,
    r: ReadStep,
)
    requires
        opcode < 16,
        opcode >= 8 ==> fin && payload.len() <= 125,
        mask.len() == 4,
        payload.len() < 0x8000_0000_0000_0000,
        s.pending.len() == 0,
        !s.eof,
        s.raw == client_bytes(fin, opcode, mask, payload) + rest,
        read_step(s, max, new, r),
    ensures
        (opcode == 0 || opcode == 2) && 0 < payload.len() <= max ==> (r matches ReadStep::Bytes(b)
            && b@ == payload) && new == (StreamState { raw: rest, ..s }),
        (opcode == 0 || opcode == 2) && payload.len() > max ==> (r matches ReadStep::Bytes(b)
            && b@ == payload.take(max as int)) && new == (StreamState {
            pending: payload.skip(max as int),
            raw: rest,
            ..s
        }),
        opcode == 9 ==> (r matches ReadStep::Reply(b) && b@ == seq![0x8Au8, payload.len() as u8]
            + payload) && new == (StreamState { raw: rest, ..s }),
        opcode == 10 || opcode == 2 && payload.len() == 0 ==> read_step(
            StreamState { raw: rest, ..s },
            max,
            new,
            r,
        ),
        opcode == 1 || 3 <= opcode <= 8 || opcode >= 11 ==> new.eof && new.close_sent
            && new.pending == s.pending,
        (opcode == 1 || 3 <= opcode <= 8 || opcode >= 11) && s.close_sent ==> r is Eof,
        (opcode == 1 || 3 <= opcode <= 8 || opcode >= 11) && !s.close_sent ==> (
        r matches ReadStep::Farewell(b) && b@ == seq![0x88u8, 2u8] + (if opcode == 1 {
            seq![3u8, 235u8]
        } else if opcode != 8 {
            seq![3u8, 234u8]
        } else if payload.len() < 2 {
            seq![3u8, 232u8]
        } else {
            seq![payload[0], payload[1]]
        })),
{
    let front = client_bytes(fin, opcode, mask, payload);
    lemma_parse_client(fin, opcode, mask, payload, rest);
    lemma_opcodes(opcode, payload);
    assert(s.raw.skip(front.len() as int) =~= rest);
    if opcode == 10 || (opcode == 0 || opcode == 2) && payload.len() == 0 {
        assert(payload.len() == 0 ==> payload =~= Seq::<u8>::empty());
        assert(skip_silent(s.raw) == skip_silent(rest));
    } else {
        assert(skip_silent(s.raw) == s.raw);
    }
    assert(payload.take(payload.len() as int) =~= payload);
    assert(payload.skip(payload.len() as int) =~= s.pending);
    if opcode == 9 {
        lemma_server_bytes(OP_PONG, payload);
        assert(server_bytes(OP_PONG, payload) =~= seq![0x8Au8, payload.len() as u8] + payload);
    }
    let code: u16 = if opcode == 1 {
        1003
    } else if opcode != 8 {
        1002
    } else if payload.len() < 2 {
        1000
    } else {
        (payload[0] * 256 + payload[1]) as u16
    };
    lemma_close_bytes(code);
    if opcode == 8 && payload.len() >= 2 {
        assert(code / 256 == payload[0]);
        assert(code % 256 == payload[1]);
    }
}

/// Bytes held back are handed out before anything else is looked at, in order, as many as are
/// asked for; and a stream that is over gives them all before it says so.
pub proof fn lemma_read_held_first(s: StreamState, max: nat, new: StreamState, r: ReadStep)
    requires
        s.pending.len() > 0 || s.eof,
        read_step(s, max, new, r),
    ensures
        s.pending.len() == 0 ==> r is Eof && new == s,
        s.pending.len() > 0 ==> (r matches ReadStep::Bytes(b) && b@ + new.pending == s.pending && (
        b@.len() == max || b@ == s.pending)) && new.raw == s.raw && new.eof == s.eof
            && new.close_sent == s.close_sent,
{
    if s.pending.len() > 0 {
        let k = if max < s.pending.len() {
            max
        } else {
            s.pending.len()
        };
        assert(s.pending.take(k as int) + s.pending.skip(k as int) =~= s.pending);
    }
}

} // verus!
