//! A WebSocket connection as a byte stream, for a caller that polls: what has to go out is
//! queued behind what the caller writes, and goes out when the connection takes it.

use std::collections::VecDeque;
use vstd::prelude::*;
use crate::be::{push_be_u16, to_be};
use crate::ws::frame::{
    client_bytes, lemma_opcodes, lemma_parse_client, lemma_parse_consumes, lemma_server_bytes,
    parse, parse_client_frame, server_bytes, server_frame, Frame, Parsed, OP_BIN, OP_CLOSE,
    OP_PONG,
};
use crate::ws::stream::{
    close_bytes, drain_front, events, lemma_close_bytes, lemma_payloads_cons, payloads, WsEvent,
};

verus! {

/// The state of a polled stream: payload not yet handed out, bytes not yet parsed, bytes
/// not yet written, whether a close was queued, whether the stream is over.
#[verifier::ext_equal]
pub struct DuplexState {
    pub ready: Seq<u8>,
    pub raw: Seq<u8>,
    pub out: Seq<u8>,
    pub close_sent: bool,
    pub eof: bool,
}

/// `s` with a close queued, unless one was before.
pub open spec fn with_close(s: DuplexState, code: u16) -> DuplexState {
    if s.close_sent {
        s
    } else {
        DuplexState { close_sent: true, out: s.out + close_bytes(code), ..s }
    }
}

/// What parsing one frame comes to.
pub enum Parsing {
    /// No whole frame yet.
    Need,
    Payload(Vec<u8>),
    /// A ping or a pong, which is dealt with.
    Control,
    /// A close frame: the stream ends.
    Eof,
    /// A violation of the protocol: the stream ends.
    Error,
}

/// `r` and `new` are what parsing one frame of `old` comes to.
pub open spec fn parse_step(old: DuplexState, new: DuplexState, r: Parsing) -> bool {
    let (frame, n) = parse(old.raw);
    let rest = DuplexState { raw: old.raw.skip(n as int), ..old };
    match frame {
        Frame::NeedMore => r is Need && new == old,
        Frame::Data(p) => (r matches Parsing::Payload(b) && b@ == p) && new == rest,
        Frame::Ping(p) => r is Control && new == (DuplexState {
            out: old.out + server_bytes(OP_PONG, p),
            ..rest
        }),
        Frame::Pong => r is Control && new == rest,
        Frame::Close(code) => r is Eof && new == with_close(rest, code),
        Frame::Protocol(code) => r is Error && new == with_close(rest, code),
    }
}

/// What parsing one frame leaves alone. Without a whole frame nothing changes; a whole frame
/// is taken from the front, and it alone; one with a bad header is not. What is queued stays
/// queued, what is ready stays ready, and a close is never queued behind another.
pub proof fn lemma_parse_leaves(old: DuplexState, new: DuplexState, r: Parsing)
    requires
        parse_step(old, new, r),
    ensures
        r is Need ==> new == old,
        ({
            let n = parse(old.raw).1;
            &&& n <= old.raw.len()
            &&& new.raw == old.raw.skip(n as int)
            &&& n > 0 ==> parse(old.raw.take(n as int)) == parse(old.raw)
            &&& n > 0 ==> !(r is Need)
            &&& n == 0 ==> (r is Need || r is Error) && new.raw == old.raw
        }),
        old.out.is_prefix_of(new.out),
        new.ready == old.ready,
        new.eof == old.eof,
        old.close_sent ==> new.close_sent,
        old.close_sent ==> new.out == old.out + (match parse(old.raw).0 {
            Frame::Ping(p) => server_bytes(OP_PONG, p),
            _ => Seq::empty(),
        }),
{
    let (frame, n) = parse(old.raw);
    lemma_parse_consumes(old.raw);
    crate::ws::frame::lemma_parse_exact(old.raw);
    assert(old.raw.skip(0) =~= old.raw);
    assert(old.out + Seq::<u8>::empty() =~= old.out);
}

/// What a poll for bytes comes to.
pub enum PollStep {
    /// Bytes of the stream.
    Bytes(Vec<u8>),
    /// The stream is over.
    Eof,
    /// Something was dealt with: write what is queued, as far as that goes, and poll again.
    Again,
    /// Poll the connection, and hand in what it brings.
    NeedInput,
}

/// `r` and `new` are what a poll for up to `max` bytes on `old` comes to.
pub open spec fn poll_step(old: DuplexState, max: nat, new: DuplexState, r: PollStep) -> bool {
    if old.ready.len() > 0 {
        let k = if max < old.ready.len() {
            max
        } else {
            old.ready.len()
        };
        &&& r matches PollStep::Bytes(b) && b@ == old.ready.take(k as int)
        &&& new == (DuplexState { ready: old.ready.skip(k as int), ..old })
    } else if old.eof {
        r is Eof && new == old
    } else {
        let (frame, n) = parse(old.raw);
        let rest = DuplexState { raw: old.raw.skip(n as int), ..old };
        match frame {
            Frame::NeedMore => r is NeedInput && new == old,
            Frame::Data(p) => r is Again && new == (DuplexState { ready: p, ..rest }),
            Frame::Ping(p) => r is Again && new == (DuplexState {
                out: old.out + server_bytes(OP_PONG, p),
                ..rest
            }),
            Frame::Pong => r is Again && new == rest,
            Frame::Close(code) => r is Again && new == (DuplexState {
                eof: true,
                ..with_close(rest, code)
            }),
            Frame::Protocol(code) => r is Again && new == (DuplexState {
                eof: true,
                ..with_close(rest, code)
            }),
        }
    }
}

/// The bytes that a polled stream has still to give from what has arrived.
pub open spec fn poll_future(s: DuplexState) -> Seq<u8> {
    if s.eof {
        s.ready
    } else {
        s.ready + payloads(events(s.raw))
    }
}

/// Nothing of the stream is lost, added or reordered by a poll.
pub proof fn lemma_poll_conserves(old: DuplexState, max: nat, new: DuplexState, r: PollStep)
    requires
        poll_step(old, max, new, r),
    ensures
        poll_future(old) == (match r {
            PollStep::Bytes(b) => b@,
            _ => Seq::empty(),
        }) + poll_future(new),
{
    let (frame, n) = parse(old.raw);
    lemma_parse_consumes(old.raw);
    let given = match r {
        PollStep::Bytes(b) => b@,
        _ => Seq::empty(),
    };
    if old.ready.len() > 0 || old.eof {
        assert(poll_future(old) =~= given + poll_future(new));
    } else {
        let rest = events(old.raw.skip(n as int));
        match frame {
            Frame::Data(p) => {
                lemma_payloads_cons(WsEvent::Payload(p), rest);
            },
            Frame::Ping(p) => {
                lemma_payloads_cons(WsEvent::Ping(p), rest);
            },
            Frame::Close(code) => {
                lemma_payloads_cons(WsEvent::End(code), Seq::empty());
            },
            Frame::Protocol(code) => {
                lemma_payloads_cons(WsEvent::End(code), Seq::empty());
            },
            _ => {},
        }
        assert(poll_future(old) =~= given + poll_future(new));
    }
}

/// At most one close is ever queued, by whatever asks for it.
pub proof fn lemma_close_once(s: DuplexState, first: u16, second: u16)
    ensures
        with_close(with_close(s, first), second) == with_close(s, first),
{
}

/// What a write on the connection came to.
#[derive(Clone, Copy, PartialEq, Eq, Structural)]
pub enum Written {
    /// It took this many bytes.
    Took(usize),
    /// It takes nothing now.
    Blocked,
    /// It failed.
    Failed,
}

/// What is left to do about the bytes queued for the connection.
#[derive(Clone, Copy, PartialEq, Eq, Structural)]
pub enum FlushStep {
    /// Nothing: all is written.
    Done,
    /// Write the rest.
    WriteMore,
    /// Wait until the connection takes more.
    Wait,
    /// Report that the connection took nothing though it was ready.
    WriteZero,
    /// Report the failed write.
    Fail,
}

/// A polled WebSocket connection.
pub struct WsDuplex {
    in_buf: Vec<u8>,
    ready: VecDeque<u8>,
    out_buf: Vec<u8>,
    out_pos: usize,
    close_sent: bool,
    eof: bool,
}

impl View for WsDuplex {
    type V = DuplexState;

    closed spec fn view(&self) -> DuplexState {
        DuplexState {
            ready: self.ready@,
            raw: self.in_buf@,
            out: self.out_buf@.skip(self.out_pos as int),
            close_sent: self.close_sent,
            eof: self.eof,
        }
    }
}

impl WsDuplex {
    /// The write cursor stands within the queued bytes.
    pub closed spec fn wf(self) -> bool {
        self.out_pos <= self.out_buf@.len()
    }

    pub fn new() -> (r: Self)
        ensures
            r.wf(),
            r@ == (DuplexState {
                ready: Seq::empty(),
                raw: Seq::empty(),
                out: Seq::empty(),
                close_sent: false,
                eof: false,
            }),
    {
        let r = WsDuplex {
            in_buf: Vec::new(),
            ready: VecDeque::new(),
            out_buf: Vec::new(),
            out_pos: 0,
            close_sent: false,
            eof: false,
        };
        assert(r@.out =~= Seq::<u8>::empty());
        r
    }

    /// Queues one frame.
    fn queue_frame(&mut self, opcode: u8, payload: &[u8])
        requires
            old(self).wf(),
        ensures
            final(self).wf(),
            final(self)@ == (DuplexState {
                out: old(self)@.out + server_bytes(opcode, payload@),
                ..old(self)@
            }),
    {
        let frame: Vec<u8> = server_frame(opcode, payload);
        self.out_buf.extend_from_slice(frame.as_slice());
        assert(self@.out =~= old(self)@.out + server_bytes(opcode, payload@));
    }

    /// Queues a close frame, unless one was queued before.
    fn queue_close(&mut self, code: u16)
        requires
            old(self).wf(),
        ensures
            final(self).wf(),
            final(self)@ == with_close(old(self)@, code),
    {
        if !self.close_sent {
            self.close_sent = true;
            let mut body: Vec<u8> = Vec::new();
            push_be_u16(&mut body, code);
            assert(body@ =~= to_be(code as nat, 2));
            self.queue_frame(OP_CLOSE, body.as_slice());
        }
    }

    /// Parses and consumes one client frame.
    pub fn parse_one(&mut self) -> (r: Parsing)
        requires
            old(self).wf(),
        ensures
            final(self).wf(),
            parse_step(old(self)@, final(self)@, r),
    {
        proof {
            lemma_parse_consumes(self@.raw);
        }
        let (parsed, consumed) = parse_client_frame(self.in_buf.as_slice());
        if let Parsed::NeedMore = parsed {
            return Parsing::Need;
        }
        drain_front(&mut self.in_buf, consumed);
        match parsed {
            Parsed::NeedMore => Parsing::Need,
            Parsed::Data(p) => Parsing::Payload(p),
            Parsed::Ping(p) => {
                self.queue_frame(OP_PONG, p.as_slice());
                Parsing::Control
            },
            Parsed::Pong => Parsing::Control,
            Parsed::Close(code) => {
                self.queue_close(code);
                Parsing::Eof
            },
            Parsed::Protocol(code) => {
                self.queue_close(code);
                Parsing::Error
            },
        }
    }

    /// Polls for up to `max` bytes of the stream.
    pub fn poll_read(&mut self, max: usize) -> (r: PollStep)
        requires
            old(self).wf(),
        ensures
            final(self).wf(),
            poll_step(old(self)@, max as nat, final(self)@, r),
    {
        if self.ready.len() > 0 {
            let held: usize = self.ready.len();
            let n: usize = if max < held {
                max
            } else {
                held
            };
            let mut out: Vec<u8> = Vec::new();
            let mut i: usize = 0;
            assert(self.ready@ =~= old(self)@.ready.skip(0));
            while i < n
                invariant
                    i <= n <= old(self)@.ready.len(),
                    self.ready@ == old(self)@.ready.skip(i as int),
                    out@ == old(self)@.ready.take(i as int),
                    self.in_buf@ == old(self)@.raw,
                    self@.out == old(self)@.out,
                    self.close_sent == old(self)@.close_sent,
                    self.eof == old(self)@.eof,
                    self.wf(),
                decreases n - i,
            {
                match self.ready.pop_front() {
                    Some(b) => {
                        out.push(b);
                    },
                    None => {},
                }
                i = i + 1;
                assert(out@ =~= old(self)@.ready.take(i as int));
                assert(self.ready@ =~= old(self)@.ready.skip(i as int));
            }
            return PollStep::Bytes(out);
        }
        if self.eof {
            return PollStep::Eof;
        }
        match self.parse_one() {
            Parsing::Need => PollStep::NeedInput,
            Parsing::Payload(p) => {
                let ghost before = self@;
                let mut i: usize = 0;
                assert(self.ready@ =~= p@.take(0));
                while i < p.len()
                    invariant
                        i <= p@.len(),
                        self.ready@ == p@.take(i as int),
                        self.in_buf@ == before.raw,
                        self@.out == before.out,
                        self.close_sent == before.close_sent,
                        self.eof == before.eof,
                        self.wf(),
                    decreases p@.len() - i,
                {
                    self.ready.push_back(p[i]);
                    i = i + 1;
                    assert(self.ready@ =~= p@.take(i as int));
                }
                assert(self.ready@ =~= p@);
                PollStep::Again
            },
            Parsing::Control => PollStep::Again,
            Parsing::Eof => {
                self.eof = true;
                PollStep::Again
            },
            Parsing::Error => {
                self.eof = true;
                PollStep::Again
            },
        }
    }

    /// Takes in what a poll of the connection brought; no bytes mean that the peer closed.
    pub fn feed(&mut self, bytes: &[u8])
        requires
            old(self).wf(),
        ensures
            final(self).wf(),
            final(self)@ == (DuplexState {
                raw: old(self)@.raw + bytes@,
                eof: old(self)@.eof || bytes@.len() == 0,
                ..old(self)@
            }),
    {
        if bytes.len() == 0 {
            self.eof = true;
        }
        self.in_buf.extend_from_slice(bytes);
        assert(self.in_buf@ =~= old(self)@.raw + bytes@);
    }

    /// The bytes queued for the connection.
    pub fn queued(&self) -> (r: &[u8])
        requires
            self.wf(),
        ensures
            r@ == self@.out,
    {
        let total: usize = self.out_buf.len();
        let r: &[u8] = vstd::slice::slice_subrange(self.out_buf.as_slice(), self.out_pos, total);
        assert(r@ =~= self@.out);
        r
    }

    /// Takes note of what a write of the queued bytes came to, and says what is left to do.
    pub fn flush_out(&mut self, written: Written) -> (r: FlushStep)
        requires
            old(self).wf(),
            written matches Written::Took(n) ==> n <= old(self)@.out.len(),
        ensures
            final(self).wf(),
            match written {
                Written::Took(n) => final(self)@ == (DuplexState {
                    out: old(self)@.out.skip(n as int),
                    ..old(self)@
                }),
                _ => final(self)@ == old(self)@,
            },
            r == (match written {
                Written::Took(n) => if old(self)@.out.len() == n {
                    FlushStep::Done
                } else if n == 0 {
                    FlushStep::WriteZero
                } else {
                    FlushStep::WriteMore
                },
                Written::Blocked => FlushStep::Wait,
                Written::Failed => FlushStep::Fail,
            }),
    {
        match written {
            Written::Blocked => FlushStep::Wait,
            Written::Failed => FlushStep::Fail,
            Written::Took(n) => {
                let total: usize = self.out_buf.len();
                self.out_pos = self.out_pos + n;
                if self.out_pos == total {
                    self.out_buf.clear();
                    self.out_pos = 0;
                    assert(self@.out =~= old(self)@.out.skip(n as int));
                    FlushStep::Done
                } else {
                    assert(self@.out =~= old(self)@.out.skip(n as int));
                    if n == 0 {
                        FlushStep::WriteZero
                    } else {
                        FlushStep::WriteMore
                    }
                }
            },
        }
    }

    /// Queues `data` as one binary frame, if nothing else is queued. Returns whether it
    /// did: if not, what is queued has to be written first.
    pub fn poll_write(&mut self, data: &[u8]) -> (r: bool)
        requires
            old(self).wf(),
        ensures
            final(self).wf(),
            r == (old(self)@.out.len() == 0),
            final(self)@ == if r {
                DuplexState { out: server_bytes(OP_BIN, data@), ..old(self)@ }
            } else {
                old(self)@
            },
    {
        if self.out_pos < self.out_buf.len() {
            return false;
        }
        self.queue_frame(OP_BIN, data);
        assert(self@.out =~= server_bytes(OP_BIN, data@));
        true
    }

    /// Queues the close that ends the stream from this side.
    pub fn poll_shutdown(&mut self)
        requires
            old(self).wf(),
        ensures
            final(self).wf(),
            final(self)@ == with_close(old(self)@, 1000),
    {
        self.queue_close(1000);
    }
}

/// Bytes read ahead of a stream, to be handed out before it.
pub struct Prefixed {
    prefix: Vec<u8>,
    pos: usize,
}

impl View for Prefixed {
    type V = Seq<u8>;

    /// The bytes not yet handed out.
    closed spec fn view(&self) -> Seq<u8> {
        self.prefix@.skip(self.pos as int)
    }
}

impl Prefixed {
    /// The cursor stands within the bytes.
    pub closed spec fn wf(self) -> bool {
        self.pos <= self.prefix@.len()
    }

    pub fn new(prefix: Vec<u8>) -> (r: Self)
        ensures
            r.wf(),
            r@ == prefix@,
    {
        let r = Prefixed { prefix, pos: 0 };
        assert(r@ =~= prefix@);
        r
    }

    /// Up to `max` of the bytes, or `None` once they are all handed out and the stream
    /// itself is to be read.
    pub fn poll_read(&mut self, max: usize) -> (r: Option<Vec<u8>>)
        requires
            old(self).wf(),
        ensures
            final(self).wf(),
            match r {
                None => old(self)@.len() == 0 && final(self)@ == old(self)@,
                Some(b) => {
                    let k = if max < old(self)@.len() {
                        max as int
                    } else {
                        old(self)@.len() as int
                    };
                    &&& old(self)@.len() > 0
                    &&& b@ == old(self)@.take(k)
                    &&& final(self)@ == old(self)@.skip(k)
                },
            },
    {
        if self.pos < self.prefix.len() {
            let held: usize = self.prefix.len() - self.pos;
            let n: usize = if max < held {
                max
            } else {
                held
            };
            let part: &[u8] = vstd::slice::slice_subrange(
                self.prefix.as_slice(),
                self.pos,
                self.pos + n,
            );
            let mut out: Vec<u8> = Vec::new();
            out.extend_from_slice(part);
            assert(out@ =~= old(self)@.take(n as int));
            self.pos = self.pos + n;
            assert(self@ =~= old(self)@.skip(n as int));
            Some(out)
        } else {
            None
        }
    }
}

/// What a poll comes to when nothing is ready and a client's frame stands at the front: the
/// payload of a binary frame becomes ready; a pong of the same bytes is queued for a ping, a
/// close of its code for a close, and a close for any other frame, unless one was queued
/// before; and after a close the stream is over. A frame that is no violation is used up, and
/// nothing behind it; what was queued stays in front.
pub proof fn lemma_poll_answers(
    s: DuplexState,
    fin: bool,
    opcode: u8,
    mask: Seq<u8>,
    payload: Seq<u8>,
    rest: Seq<u8>,
    max: nat,
    new: DuplexState,
    r: PollStep,
)
    requires
        opcode < 16,
        opcode >= 8 ==> fin && payload.len() <= 125,
        mask.len() == 4,
        payload.len() < 0x8000_0000_0000_0000,
        s.ready.len() == 0,
        !s.eof,
        s.raw == client_bytes(fin, opcode, mask, payload) + rest,
        poll_step(s, max, new, r),
    ensures
        r is Again,
        opcode == 0 || opcode == 2 ==> new == (DuplexState { ready: payload, raw: rest, ..s }),
        opcode == 9 ==> new == (DuplexState {
            out: s.out + (seq![0x8Au8, payload.len() as u8] + payload),
            raw: rest,
            ..s
        }),
        opcode == 10 ==> new == (DuplexState { raw: rest, ..s }),
        opcode == 1 || 3 <= opcode <= 8 || opcode >= 11 ==> new.eof && new.close_sent
            && new.ready == s.ready,
        (opcode == 1 || 3 <= opcode <= 8 || opcode >= 11) && s.close_sent ==> new.out == s.out,
        (opcode == 1 || 3 <= opcode <= 8 || opcode >= 11) && !s.close_sent ==> new.out == s.out + (
        seq![0x88u8, 2u8] + (if opcode == 1 {
            seq![3u8, 235u8]
        } else if opcode != 8 {
            seq![3u8, 234u8]
        } else if payload.len() < 2 {
            seq![3u8, 232u8]
        } else {
            seq![payload[0], payload[1]]
        })),
{
    let front = client_bytes(fin, opcode, mask, payload);
    lemma_parse_client(fin, opcode, mask, payload, rest);
    lemma_opcodes(opcode, payload);
    assert(s.raw.skip(front.len() as int) =~= rest);
    if opcode == 9 {
        lemma_server_bytes(OP_PONG, payload);
        assert(server_bytes(OP_PONG, payload) =~= seq![0x8Au8, payload.len() as u8] + payload);
    }
    let code: u16 = if opcode == 1 {
        1003
    } else if opcode != 8 {
        1002
    } else if payload.len() < 2 {
        1000
    } else {
        (payload[0] * 256 + payload[1]) as u16
    };
    lemma_close_bytes(code);
    if opcode == 8 && payload.len() >= 2 {
        assert(code / 256 == payload[0]);
        assert(code % 256 == payload[1]);
    }
    let tail = if opcode == 1 {
        seq![3u8, 235u8]
    } else if opcode != 8 {
        seq![3u8, 234u8]
    } else if payload.len() < 2 {
        seq![3u8, 232u8]
    } else {
        seq![payload[0], payload[1]]
    };
    if opcode == 1 || 3 <= opcode <= 8 || opcode >= 11 {
        assert(close_bytes(code) =~= seq![0x88u8, 2u8] + tail);
    }
}

/// Parsing on its own and as part of a poll come to the same, but for who keeps the payload
/// and who takes note of the end.
pub proof fn lemma_poll_parses(
    s: DuplexState,
    max: nat,
    polled: DuplexState,
    r: PollStep,
    parsed: DuplexState,
    p: Parsing,
)
    requires
        s.ready.len() == 0,
        !s.eof,
        poll_step(s, max, polled, r),
        parse_step(s, parsed, p),
    ensures
        r is NeedInput <==> p is Need,
        !(r is NeedInput) ==> r is Again,
        polled.raw == parsed.raw,
        polled.out == parsed.out,
        polled.close_sent == parsed.close_sent,
        polled.ready == (match p {
            Parsing::Payload(b) => b@,
            _ => s.ready,
        }),
        polled.eof == (p is Eof || p is Error),
{
}

/// What is ready is handed out first, in order, as many bytes as are asked for.
pub proof fn lemma_poll_ready_first(s: DuplexState, max: nat, new: DuplexState, r: PollStep)
    requires
        s.ready.len() > 0 || s.eof,
        poll_step(s, max, new, r),
    ensures
        s.ready.len() == 0 ==> r is Eof && new == s,
        s.ready.len() > 0 ==> (r matches PollStep::Bytes(b) && b@ + new.ready == s.ready && (b@.len()
            == max || b@ == s.ready)) && new.raw == s.raw && new.out == s.out && new.eof == s.eof
            && new.close_sent == s.close_sent,
{
    if s.ready.len() > 0 {
        let k = if max < s.ready.len() {
            max
        } else {
            s.ready.len()
        };
        assert(s.ready.take(k as int) + s.ready.skip(k as int) =~= s.ready);
    }
}

/// A close that is queued comes last, and touches nothing else.
pub proof fn lemma_with_close(s: DuplexState, code: u16)
    ensures
        with_close(s, code).close_sent,
        with_close(s, code).out == (if s.close_sent {
            s.out
        } else {
            s.out + seq![0x88u8, 2u8, (code / 256) as u8, (code % 256) as u8]
        }),
        with_close(s, code).ready == s.ready,
        with_close(s, code).raw == s.raw,
        with_close(s, code).eof == s.eof,
{
    lemma_close_bytes(code);
}

} // verus!
