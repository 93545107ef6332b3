//! The wire protocol: typed envelopes, and frames that carry them.

use bytes::{Bytes, BytesMut};
use vstd::prelude::*;
use crate::be::{
    be, be_u32, lemma_be_bound, lemma_be_to_be, lemma_to_be_be, lemma_to_be_len, pow256,
    push_be_u32, to_be,
};
use crate::buf::{
    buf_as_slice, buf_extend_from_slice, buf_freeze, buf_new, buf_put_slice, buf_put_u8,
    buf_split_to, buf_with_capacity, bytes_copy_from_slice, bytes_from_static, bytes_mut_view,
    bytes_view,
};
use crate::inbound::{arrived, Inbound};

verus! {

pub const PROTOCOL_VERSION: u8 = 1;

/// The width of an identity, in bytes.
pub const IDENTITY_SIZE: usize = 16;

/// The width of a message id, in bytes.
pub const MSG_ID_SIZE: usize = 16;

/// What tells one socket from another.
pub type Identity = [u8; 16];

/// What tells one acknowledged message from another.
pub type MsgId = [u8; 16];

pub const T_HELLO: u8 = 0x01;

pub const T_HEARTBEAT: u8 = 0x02;

pub const T_DATA: u8 = 0x03;

pub const T_DATA_REQ: u8 = 0x04;

pub const T_ACK: u8 = 0x05;

// Envelopes ------------------------------------------------------------------

/// A typed message.
#[derive(Debug, Clone, PartialEq, Eq)]
pub enum Envelope {
    Hello { version: u8, identity: Identity },
    Heartbeat,
    Data { payload: Bytes },
    DataReq { msg_id: MsgId, payload: Bytes },
    Ack { msg_id: MsgId },
}

/// What an envelope says.
pub enum Message {
    Hello { version: u8, identity: Seq<u8> },
    Heartbeat,
    Data { payload: Seq<u8> },
    DataReq { msg_id: Seq<u8>, payload: Seq<u8> },
    Ack { msg_id: Seq<u8> },
}

impl View for Envelope {
    type V = Message;

    open spec fn view(&self) -> Message {
        match self {
            Envelope::Hello { version, identity } => Message::Hello {
                version: *version,
                identity: identity@,
            },
            Envelope::Heartbeat => Message::Heartbeat,
            Envelope::Data { payload } => Message::Data { payload: bytes_view(*payload) },
            Envelope::DataReq { msg_id, payload } => Message::DataReq {
                msg_id: msg_id@,
                payload: bytes_view(*payload),
            },
            Envelope::Ack { msg_id } => Message::Ack { msg_id: msg_id@ },
        }
    }
}

/// The identities and message ids have their width.
pub open spec fn well_formed(m: Message) -> bool {
    match m {
        Message::Hello { version, identity } => identity.len() == 16,
        Message::DataReq { msg_id, payload } => msg_id.len() == 16,
        Message::Ack { msg_id } => msg_id.len() == 16,
        _ => true,
    }
}

/// The bytes of an envelope: its type, then its fields in their places.
pub open spec fn encoded(m: Message) -> Seq<u8> {
    match m {
        Message::Hello { version, identity } => seq![T_HELLO, version] + identity,
        Message::Heartbeat => seq![T_HEARTBEAT],
        Message::Data { payload } => seq![T_DATA] + payload,
        Message::DataReq { msg_id, payload } => seq![T_DATA_REQ] + msg_id + payload,
        Message::Ack { msg_id } => seq![T_ACK] + msg_id,
    }
}

/// What the bytes of an envelope say. Nothing, if there are none, if a field is cut short
/// or if the type is not known.
pub open spec fn decoded(buf: Seq<u8>) -> Option<Message> {
    let body = buf.skip(1);
    if buf.len() == 0 {
        None
    } else if buf[0] == T_HELLO && body.len() >= 17 {
        Some(Message::Hello { version: body[0], identity: body.subrange(1, 17) })
    } else if buf[0] == T_HEARTBEAT {
        Some(Message::Heartbeat)
    } else if buf[0] == T_DATA {
        Some(Message::Data { payload: body })
    } else if buf[0] == T_DATA_REQ && body.len() >= 16 {
        Some(Message::DataReq { msg_id: body.take(16), payload: body.skip(16) })
    } else if buf[0] == T_ACK && body.len() >= 16 {
        Some(Message::Ack { msg_id: body.take(16) })
    } else {
        None
    }
}

/// Every envelope is read back as what was written.
pub proof fn lemma_decode_encode(m: Message)
    requires
        well_formed(m),
    ensures
        decoded(encoded(m)) == Some(m),
{
    let b = encoded(m);
    match m {
        Message::Hello { version, identity } => {
            assert(b.skip(1).subrange(1, 17) =~= identity);
        },
        Message::Heartbeat => {},
        Message::Data { payload } => {
            assert(b.skip(1) =~= payload);
        },
        Message::DataReq { msg_id, payload } => {
            assert(b.skip(1).take(16) =~= msg_id);
            assert(b.skip(1).skip(16) =~= payload);
        },
        Message::Ack { msg_id } => {
            assert(b.skip(1).take(16) =~= msg_id);
        },
    }
}

/// Whatever is read has its fields in their width, and its bytes are the front of what was
/// read; a payload reaches to the end.
pub proof fn lemma_encode_decode(buf: Seq<u8>)
    ensures
        decoded(buf) matches Some(m) ==> well_formed(m) && encoded(m).is_prefix_of(buf) && ((
        m is Data || m is DataReq) ==> encoded(m) == buf),
{
    if let Some(m) = decoded(buf) {
        let b = encoded(m);
        match m {
            Message::Data { payload } => {
                assert(b =~= buf);
            },
            Message::DataReq { msg_id, payload } => {
                assert(b =~= buf);
            },
            _ => {
                assert(b =~= buf.take(b.len() as int));
            },
        }
    }
}

/// Payload bytes are never mistaken for a control envelope, whatever they are: application
/// data is read back as application data.
pub proof fn lemma_payload_is_payload(msg_id: Seq<u8>, payload: Seq<u8>)
    requires
        msg_id.len() == 16,
    ensures
        decoded(encoded(Message::Data { payload })) == Some(Message::Data { payload }),
        decoded(encoded(Message::DataReq { msg_id, payload })) == Some(
            Message::DataReq { msg_id, payload },
        ),
{
    lemma_decode_encode(Message::Data { payload });
    lemma_decode_encode(Message::DataReq { msg_id, payload });
}

/// An envelope of a type that is not known, or with none, is no message.
pub proof fn lemma_unknown_is_none(buf: Seq<u8>)
    requires
        buf.len() == 0 || buf[0] == 0 || buf[0] > 5,
    ensures
        decoded(buf) is None,
{
}

/// A `HELLO` envelope of this version.
pub fn hello(identity: &Identity) -> (r: Bytes)
    ensures
        bytes_view(r) == encoded(
            Message::Hello { version: PROTOCOL_VERSION, identity: identity@ },
        ),
{
    let mut b: BytesMut = buf_with_capacity(2 + IDENTITY_SIZE);
    buf_put_u8(&mut b, T_HELLO);
    buf_put_u8(&mut b, PROTOCOL_VERSION);
    buf_put_slice(&mut b, identity.as_slice());
    assert(bytes_mut_view(b) =~= seq![T_HELLO, PROTOCOL_VERSION] + identity@);
    buf_freeze(b)
}

/// A `HEARTBEAT` envelope.
pub fn heartbeat() -> (r: Bytes)
    ensures
        bytes_view(r) == encoded(Message::Heartbeat),
{
    let r: Bytes = bytes_from_static(&[T_HEARTBEAT]);
    assert(bytes_view(r) =~= seq![T_HEARTBEAT]);
    r
}

/// A `DATA` envelope.
pub fn data(payload: &[u8]) -> (r: Bytes)
    requires
        payload@.len() + 1 <= isize::MAX,
    ensures
        bytes_view(r) == encoded(Message::Data { payload: payload@ }),
{
    let mut b: BytesMut = buf_with_capacity(1 + payload.len());
    buf_put_u8(&mut b, T_DATA);
    buf_put_slice(&mut b, payload);
    assert(bytes_mut_view(b) =~= seq![T_DATA] + payload@);
    buf_freeze(b)
}

/// A `DATA_REQ` envelope.
pub fn data_req(msg_id: &MsgId, payload: &[u8]) -> (r: Bytes)
    requires
        payload@.len() + 17 <= isize::MAX,
    ensures
        bytes_view(r) == encoded(Message::DataReq { msg_id: msg_id@, payload: payload@ }),
{
    let mut b: BytesMut = buf_with_capacity(1 + MSG_ID_SIZE + payload.len());
    buf_put_u8(&mut b, T_DATA_REQ);
    buf_put_slice(&mut b, msg_id.as_slice());
    buf_put_slice(&mut b, payload);
    assert(bytes_mut_view(b) =~= seq![T_DATA_REQ] + msg_id@ + payload@);
    buf_freeze(b)
}

/// An `ACK` envelope.
pub fn ack(msg_id: &MsgId) -> (r: Bytes)
    ensures
        bytes_view(r) == encoded(Message::Ack { msg_id: msg_id@ }),
{
    let mut b: BytesMut = buf_with_capacity(1 + MSG_ID_SIZE);
    buf_put_u8(&mut b, T_ACK);
    buf_put_slice(&mut b, msg_id.as_slice());
    assert(bytes_mut_view(b) =~= seq![T_ACK] + msg_id@);
    buf_freeze(b)
}

/// The sixteen bytes of `s` from `at` on.
pub(crate) fn sixteen(s: &[u8], at: usize) -> (r: [u8; 16])
    requires
        at + 16 <= s@.len(),
    ensures
        r@ == s@.subrange(at as int, at + 16),
{
    let len: usize = s.len();
    let mut out: [u8; 16] = [0u8;16];
    let mut i: usize = 0;
    while i < 16
        invariant
            i <= 16,
            at + 16 <= len == s@.len(),
            forall|j: int| 0 <= j < i ==> out[j] == s@[at + j],
        decreases 16 - i,
    {
        out[i] = s[at + i];
        i = i + 1;
    }
    assert(out@ =~= s@.subrange(at as int, at + 16));
    out
}

/// Decodes one envelope. `None` if it is empty, cut short or of a type not known.
pub fn decode(buf: &[u8]) -> (r: Option<Envelope>)
    ensures
        match r {
            Some(e) => decoded(buf@) == Some(e@),
            None => decoded(buf@) is None,
        },
{
    if buf.len() == 0 {
        return None;
    }
    let t: u8 = buf[0];
    let total: usize = buf.len();
    let body: &[u8] = vstd::slice::slice_subrange(buf, 1, total);
    assert(body@ =~= buf@.skip(1));
    if t == T_HELLO {
        if body.len() < 1 + IDENTITY_SIZE {
            return None;
        }
        let version: u8 = body[0];
        Some(Envelope::Hello { version, identity: sixteen(body, 1) })
    } else if t == T_HEARTBEAT {
        Some(Envelope::Heartbeat)
    } else if t == T_DATA {
        Some(Envelope::Data { payload: bytes_copy_from_slice(body) })
    } else if t == T_DATA_REQ {
        if body.len() < MSG_ID_SIZE {
            return None;
        }
        let rest: &[u8] = vstd::slice::slice_subrange(body, MSG_ID_SIZE, body.len());
        assert(rest@ =~= body@.skip(16));
        assert(body@.take(16) =~= body@.subrange(0, 16));
        Some(
            Envelope::DataReq { msg_id: sixteen(body, 0), payload: bytes_copy_from_slice(rest) },
        )
    } else if t == T_ACK {
        if body.len() < MSG_ID_SIZE {
            return None;
        }
        assert(body@.take(16) =~= body@.subrange(0, 16));
        Some(Envelope::Ack { msg_id: sixteen(body, 0) })
    } else {
        None
    }
}

// Frames ---------------------------------------------------------------------

/// A frame: the length of the envelope in four bytes, then the envelope.
pub open spec fn framed(envelope: Seq<u8>) -> Seq<u8> {
    to_be(envelope.len() % 0x1_0000_0000, 4) + envelope
}

/// The envelope of the frame at the front of `buf`, and the size of that frame.
pub open spec fn next_frame(buf: Seq<u8>) -> Option<(Seq<u8>, nat)> {
    let len = be(buf.take(4));
    if buf.len() < 4 || buf.len() < 4 + len {
        None
    } else {
        Some((buf.subrange(4, 4 + len as int), 4 + len))
    }
}

/// The envelopes of the whole frames at the front of `buf`.
pub open spec fn frames(buf: Seq<u8>) -> Seq<Seq<u8>>
    decreases buf.len(),
{
    match next_frame(buf) {
        None => Seq::empty(),
        Some((envelope, n)) => if n <= buf.len() && n > 0 {
            seq![envelope] + frames(buf.skip(n as int))
        } else {
            Seq::empty()
        },
    }
}

/// What is left of `buf` behind its whole frames.
pub open spec fn unframed(buf: Seq<u8>) -> Seq<u8>
    decreases buf.len(),
{
    match next_frame(buf) {
        None => buf,
        Some((envelope, n)) => if n <= buf.len() && n > 0 {
            unframed(buf.skip(n as int))
        } else {
            buf
        },
    }
}

/// Bytes that hold a whole frame are more than what is left of them behind it.
pub proof fn lemma_unframed_shorter(buf: Seq<u8>)
    ensures
        unframed(buf).len() <= buf.len(),
        frames(buf).len() == 0 <==> unframed(buf).len() == buf.len(),
        frames(buf).len() == 0 ==> unframed(buf) == buf,
    decreases buf.len(),
{
    match next_frame(buf) {
        None => {},
        Some((envelope, n)) => {
            if n <= buf.len() && n > 0 {
                lemma_unframed_shorter(buf.skip(n as int));
            }
        },
    }
}

/// `envelopes`, each in its frame, one after the other.
pub open spec fn framed_all(envelopes: Seq<Seq<u8>>) -> Seq<u8>
    decreases envelopes.len(),
{
    if envelopes.len() == 0 {
        Seq::empty()
    } else {
        framed(envelopes[0]) + framed_all(envelopes.skip(1))
    }
}

/// A frame is read back as its envelope, whatever follows it, if the length fits its field.
pub proof fn lemma_next_frame(envelope: Seq<u8>, rest: Seq<u8>)
    requires
        envelope.len() < 0x1_0000_0000,
    ensures
        next_frame(framed(envelope) + rest) == Some((envelope, framed(envelope).len())),
        framed(envelope).len() == 4 + envelope.len(),
{
    let n = envelope.len();
    let buf = framed(envelope) + rest;
    lemma_to_be_len(n, 4);
    assert(buf.take(4) =~= to_be(n, 4));
    reveal_with_fuel(pow256, 5);
    lemma_be_to_be(n, 4);
    assert(buf.subrange(4, 4 + n as int) =~= envelope);
}

/// A whole frame is read the same whatever arrives behind it.
proof fn lemma_next_frame_extend(a: Seq<u8>, b: Seq<u8>)
    requires
        next_frame(a) is Some,
    ensures
        next_frame(a + b) == next_frame(a),
{
    assert((a + b).take(4) =~= a.take(4));
    let len = be(a.take(4));
    assert((a + b).subrange(4, 4 + len as int) =~= a.subrange(4, 4 + len as int));
}

/// How a stream of frames is cut into reads does not matter.
pub proof fn lemma_frames_append(a: Seq<u8>, b: Seq<u8>)
    ensures
        frames(a + b) == frames(a) + frames(unframed(a) + b),
        unframed(a + b) == unframed(unframed(a) + b),
    decreases a.len(),
{
    match next_frame(a) {
        None => {
            assert(frames(a) + frames(a + b) =~= frames(a + b));
        },
        Some((envelope, n)) => {
            lemma_next_frame_extend(a, b);
            let rest = a.skip(n as int);
            assert((a + b).skip(n as int) =~= rest + b);
            lemma_frames_append(rest, b);
            assert(frames(a + b) =~= frames(a) + frames(unframed(a) + b));
        },
    }
}

/// What is read from a stream of frames is what was written to it, in order.
pub proof fn lemma_frames_framed(envelopes: Seq<Seq<u8>>)
    requires
        forall|i: int|
            0 <= i < envelopes.len() ==> (#[trigger] envelopes[i]).len() < 0x1_0000_0000,
    ensures
        frames(framed_all(envelopes)) == envelopes,
        unframed(framed_all(envelopes)) == Seq::<u8>::empty(),
    decreases envelopes.len(),
{
    if envelopes.len() == 0 {
        assert(frames(framed_all(envelopes)) =~= envelopes);
    } else {
        let rest = framed_all(envelopes.skip(1));
        lemma_next_frame(envelopes[0], rest);
        assert forall|i: int| 0 <= i < envelopes.skip(1).len() implies (
        #[trigger] envelopes.skip(1)[i]).len() < 0x1_0000_0000 by {
            assert(envelopes.skip(1)[i] == envelopes[i + 1]);
        }
        lemma_frames_framed(envelopes.skip(1));
        let buf = framed_all(envelopes);
        assert(buf.skip(framed(envelopes[0]).len() as int) =~= rest);
        assert(frames(buf) =~= envelopes);
    }
}

/// Appends one frame to `out`.
pub fn write_frame(out: &mut Vec<u8>, envelope: &[u8])
    ensures
        final(out)@ == old(out)@ + framed(envelope@),
{
    let n: usize = envelope.len();
    push_be_u32(out, (n as u64 % 0x1_0000_0000) as u32);
    out.extend_from_slice(envelope);
    assert(out@ =~= old(out)@ + framed(envelope@));
}

/// Reads one frame from the front of `r`. `None`, with all of it consumed, if it does not
/// hold a whole frame.
pub fn read_frame(r: &mut &[u8]) -> (frame: Option<Vec<u8>>)
    ensures
        match frame {
            Some(envelope) => next_frame(old(r)@) matches Some((e, n)) && envelope@ == e && final(r)@ == old(r)@.skip(n as int),
            None => next_frame(old(r)@) is None && final(r)@ == Seq::<u8>::empty(),
        },
{
    let s: &[u8] = *r;
    let total: usize = s.len();
    if total < 4 {
        *r = vstd::slice::slice_subrange(s, total, total);
        assert(r@ =~= Seq::<u8>::empty());
        return None;
    }
    let len: u32 = be_u32(s[0], s[1], s[2], s[3]);
    assert(s@.take(4) =~= seq![s@[0], s@[1], s@[2], s@[3]]);
    if ((total - 4) as u64) < len as u64 {
        *r = vstd::slice::slice_subrange(s, total, total);
        assert(r@ =~= Seq::<u8>::empty());
        return None;
    }
    let n: usize = 4 + len as usize;
    let mut envelope: Vec<u8> = Vec::new();
    let part: &[u8] = vstd::slice::slice_subrange(s, 4, n);
    envelope.extend_from_slice(part);
    assert(envelope@ =~= s@.subrange(4, n as int));
    *r = vstd::slice::slice_subrange(s, n, total);
    assert(r@ =~= s@.skip(n as int));
    Some(envelope)
}

/// What a read of an exact number of bytes brought.
pub enum Exact {
    /// All of them.
    Filled(Vec<u8>),
    /// The peer closed first.
    Eof,
    /// The read failed.
    Failed,
}

/// Where reading a frame stands.
pub enum FrameRead {
    /// Read exactly as many bytes as [`FrameReader::wanted`] says.
    ReadOn,
    /// A whole frame: its envelope.
    Frame(Vec<u8>),
    /// The peer closed, between frames or within one.
    Closed,
    /// The read failed.
    Failed,
}

/// Reads frames from a connection, by exact reads: first the length, then the envelope.
pub struct FrameReader {
    body: Option<u32>,
}

impl FrameReader {
    /// The length of the envelope to be read next, if it is known.
    pub closed spec fn body(self) -> Option<nat> {
        match self.body {
            Some(n) => Some(n as nat),
            None => None,
        }
    }

    /// How many bytes to read next.
    pub open spec fn wants(self) -> nat {
        match self.body() {
            Some(n) => n,
            None => 4,
        }
    }

    pub fn new() -> (r: Self)
        ensures
            r.body() is None,
    {
        FrameReader { body: None }
    }

    /// How many bytes to read next.
    pub fn wanted(&self) -> (r: u32)
        ensures
            r == self.wants(),
    {
        match self.body {
            Some(n) => n,
            None => 4,
        }
    }

    /// Takes in what the read brought.
    pub fn step(&mut self, got: Exact) -> (r: FrameRead)
        requires
            got matches Exact::Filled(b) ==> b@.len() == old(self).wants(),
        ensures
            match got {
                Exact::Filled(b) => match old(self).body() {
                    None => r is ReadOn && final(self).body() == Some(be(b@)),
                    Some(_) => (r matches FrameRead::Frame(e) && e@ == b@) && final(self).body() is None,
                },
                Exact::Eof => r is Closed && final(self).body() == old(self).body(),
                Exact::Failed => r is Failed && final(self).body() == old(self).body(),
            },
    {
        match got {
            Exact::Eof => FrameRead::Closed,
            Exact::Failed => FrameRead::Failed,
            Exact::Filled(b) => match self.body {
                None => {
                    let len: u32 = be_u32(b[0], b[1], b[2], b[3]);
                    assert(b@ =~= seq![b@[0], b@[1], b@[2], b@[3]]);
                    self.body = Some(len);
                    FrameRead::ReadOn
                },
                Some(_) => {
                    self.body = None;
                    FrameRead::Frame(b)
                },
            },
        }
    }
}

/// Reading the length and then that many bytes is reading a frame.
pub proof fn lemma_exact_reads(buf: Seq<u8>)
    requires
        buf.len() >= 4,
        buf.len() >= 4 + be(buf.take(4)),
    ensures
        next_frame(buf) == Some(
            (buf.skip(4).take(be(buf.take(4)) as int), 4 + be(buf.take(4))),
        ),
{
    let len = be(buf.take(4));
    assert(buf.skip(4).take(len as int) =~= buf.subrange(4, 4 + len as int));
}

/// The outcome of one read through a [`FrameDecoder`].
pub enum Read1 {
    /// A whole frame: its envelope.
    Frame(Vec<u8>),
    /// No whole frame yet.
    Pending,
    /// The peer closed between two frames.
    Closed,
}

/// The read failed, or the peer closed within a frame.
pub struct ReadFailed;

/// Collects frames from whatever bytes arrive.
pub struct FrameDecoder {
    buf: BytesMut,
}

impl View for FrameDecoder {
    type V = Seq<u8>;

    /// The bytes not yet handed out.
    closed spec fn view(&self) -> Seq<u8> {
        bytes_mut_view(self.buf)
    }
}

impl Default for FrameDecoder {
    fn default() -> (r: Self)
        ensures
            r@ == Seq::<u8>::empty(),
    {
        FrameDecoder::new()
    }
}

impl FrameDecoder {
    pub fn new() -> (r: Self)
        ensures
            r@ == Seq::<u8>::empty(),
    {
        FrameDecoder { buf: buf_new() }
    }

    /// The bytes not yet handed out.
    pub fn held(&self) -> (r: &[u8])
        ensures
            r@ == self@,
    {
        buf_as_slice(&self.buf)
    }

    /// Takes in bytes that were read.
    pub fn extend_from(&mut self, bytes: &[u8])
        requires
            old(self)@.len() + bytes@.len() <= isize::MAX,
        ensures
            final(self)@ == old(self)@ + bytes@,
    {
        buf_extend_from_slice(&mut self.buf, bytes);
    }

    /// The next whole frame, if there is one.
    pub fn pop(&mut self) -> (r: Option<Vec<u8>>)
        ensures
            match r {
                Some(envelope) => next_frame(old(self)@) matches Some((e, n)) && envelope@ == e
                    && final(self)@ == old(self)@.skip(n as int),
                None => next_frame(old(self)@) is None && final(self)@ == old(self)@,
            },
    {
        self.take_frame()
    }

    /// Splits off the next whole frame.
    fn take_frame(&mut self) -> (r: Option<Vec<u8>>)
        ensures
            match r {
                Some(envelope) => next_frame(old(self)@) matches Some((e, n)) && envelope@ == e
                    && final(self)@ == old(self)@.skip(n as int),
                None => next_frame(old(self)@) is None && final(self)@ == old(self)@,
            },
    {
        let held: &[u8] = buf_as_slice(&self.buf);
        let total: usize = held.len();
        if total < 4 {
            return None;
        }
        let len: u32 = be_u32(held[0], held[1], held[2], held[3]);
        assert(held@.take(4) =~= seq![held@[0], held@[1], held@[2], held@[3]]);
        if ((total - 4) as u64) < len as u64 {
            return None;
        }
        let n: usize = len as usize;
        let ghost whole = self@;
        let _prefix: BytesMut = buf_split_to(&mut self.buf, 4);
        let body: BytesMut = buf_split_to(&mut self.buf, n);
        assert(whole.skip(4).take(n as int) =~= whole.subrange(4, 4 + n));
        assert(whole.skip(4).skip(n as int) =~= whole.skip(4 + n));
        let mut envelope: Vec<u8> = Vec::new();
        envelope.extend_from_slice(buf_as_slice(&body));
        assert(envelope@ =~= whole.subrange(4, 4 + n));
        Some(envelope)
    }

    /// Takes in what one read brought and hands out the next frame if it is whole now. A frame
    /// that was whole before comes first, whatever the read brought; no read is called for
    /// then.
    pub fn read1(&mut self, got: Inbound) -> (r: Result<Read1, ReadFailed>)
        requires
            old(self)@.len() + arrived(got).len() <= isize::MAX,
        ensures
            match next_frame(old(self)@) {
                Some((e, n)) => {
                    &&& r matches Ok(Read1::Frame(envelope)) && envelope@ == e
                    &&& final(self)@ == old(self)@.skip(n as int) + arrived(got)
                },
                None => match got {
                    Inbound::Bytes(b) => {
                        let all = old(self)@ + b@;
                        match next_frame(all) {
                            Some((e, n)) => (r matches Ok(Read1::Frame(envelope)) && envelope@ == e)
                                && final(self)@ == all.skip(n as int),
                            None => (r matches Ok(Read1::Pending)) && final(self)@ == all,
                        }
                    },
                    Inbound::Idle => (r matches Ok(Read1::Pending)) && final(self)@ == old(self)@,
                    Inbound::Closed => final(self)@ == old(self)@ && (if old(self)@.len() == 0 {
                        r matches Ok(Read1::Closed)
                    } else {
                        r is Err
                    }),
                    Inbound::Failed => r is Err && final(self)@ == old(self)@,
                },
            },
    {
        if let Some(envelope) = self.take_frame() {
            let ghost rest = self@;
            if let Inbound::Bytes(b) = got {
                self.extend_from(b.as_slice());
            }
            assert(self@ =~= rest + arrived(got));
            return Ok(Read1::Frame(envelope));
        }
        match got {
            Inbound::Bytes(b) => {
                self.extend_from(b.as_slice());
                match self.take_frame() {
                    Some(envelope) => Ok(Read1::Frame(envelope)),
                    None => Ok(Read1::Pending),
                }
            },
            Inbound::Idle => Ok(Read1::Pending),
            Inbound::Closed => if self.held().len() == 0 {
                Ok(Read1::Closed)
            } else {
                Err(ReadFailed)
            },
            Inbound::Failed => Err(ReadFailed),
        }
    }
}

/// Where everything stands in an envelope: the type in the first byte, by number; the version
/// behind it; identities and message ids in the sixteen bytes that follow; payloads to the end.
pub proof fn lemma_envelope_layout(version: u8, id: Seq<u8>, payload: Seq<u8>, i: int)
    requires
        id.len() == 16,
    ensures
        ({
            let greeting = encoded(Message::Hello { version, identity: id });
            let plain = encoded(Message::Data { payload });
            let request = encoded(Message::DataReq { msg_id: id, payload });
            let receipt = encoded(Message::Ack { msg_id: id });
            &&& greeting.len() == 18 && greeting[0] == 1 && greeting[1] == version
            &&& encoded(Message::Heartbeat) == seq![2u8]
            &&& plain.len() == 1 + payload.len() && plain[0] == 3
            &&& request.len() == 17 + payload.len() && request[0] == 4
            &&& receipt.len() == 17 && receipt[0] == 5
            &&& 0 <= i < 16 ==> greeting[2 + i] == id[i] && request[1 + i] == id[i] && receipt[1
                + i] == id[i]
            &&& 0 <= i < payload.len() ==> plain[1 + i] == payload[i] && request[17 + i]
                == payload[i]
        }),
{
}

/// Which bytes are envelopes, and of which type.
pub proof fn lemma_envelope_types(buf: Seq<u8>)
    requires
        buf.len() > 0,
    ensures
        (decoded(buf) matches Some(Message::Hello { .. })) <==> buf[0] == 1 && buf.len() >= 18,
        (decoded(buf) matches Some(Message::Heartbeat)) <==> buf[0] == 2,
        (decoded(buf) matches Some(Message::Data { .. })) <==> buf[0] == 3,
        (decoded(buf) matches Some(Message::DataReq { .. })) <==> buf[0] == 4 && buf.len() >= 17,
        (decoded(buf) matches Some(Message::Ack { .. })) <==> buf[0] == 5 && buf.len() >= 17,
{
}

/// The four bytes in front of an envelope give its length, the most significant first.
pub proof fn lemma_frame_layout(envelope: Seq<u8>)
    requires
        envelope.len() < 0x1_0000_0000,
    ensures
        ({
            let f = framed(envelope);
            &&& f.len() == 4 + envelope.len()
            &&& f[0] * 0x100_0000 + f[1] * 0x1_0000 + f[2] * 0x100 + f[3] == envelope.len()
            &&& f.skip(4) == envelope
        }),
{
    let f = framed(envelope);
    let n = envelope.len();
    reveal_with_fuel(to_be, 5);
    reveal_with_fuel(pow256, 5);
    lemma_to_be_len(n, 4);
    lemma_be_to_be(n, 4);
    let four = to_be(n, 4);
    lemma_four(four);
    assert(f.skip(4) =~= envelope);
}

pub(crate) proof fn lemma_four(s: Seq<u8>)
    requires
        s.len() == 4,
    ensures
        be(s) == s[0] * 0x100_0000 + s[1] * 0x1_0000 + s[2] * 0x100 + s[3],
{
    reveal_with_fuel(be, 5);
    assert(s.drop_last().drop_last().drop_last().drop_last() =~= Seq::<u8>::empty());
}

/// A frame is taken off exactly when it is whole, with what its four bytes say as its length.
pub proof fn lemma_frame_whole(buf: Seq<u8>)
    ensures
        buf.len() < 4 ==> next_frame(buf) is None,
        buf.len() >= 4 ==> ({
            let n = buf[0] * 0x100_0000 + buf[1] * 0x1_0000 + buf[2] * 0x100 + buf[3];
            if buf.len() < 4 + n {
                next_frame(buf) is None
            } else {
                next_frame(buf) == Some((buf.skip(4).take(n), (4 + n) as nat))
            }
        }),
{
    if buf.len() >= 4 {
        lemma_four(buf.take(4));
        let n = be(buf.take(4));
        if buf.len() >= 4 + n {
            assert(buf.subrange(4, 4 + n as int) =~= buf.skip(4).take(n as int));
        }
    }
}

/// Nothing is lost or made up: bytes are the frames taken from them and what is left, which
/// holds no whole frame.
pub proof fn lemma_frames_are_all(buf: Seq<u8>)
    ensures
        buf == framed_all(frames(buf)) + unframed(buf),
        next_frame(unframed(buf)) is None,
    decreases buf.len(),
{
    match next_frame(buf) {
        None => {
            assert(framed_all(frames(buf)) + unframed(buf) =~= buf);
        },
        Some((envelope, n)) => {
            let rest = buf.skip(n as int);
            lemma_frames_are_all(rest);
            let four = buf.take(4);
            lemma_be_bound(four);
            reveal_with_fuel(pow256, 5);
            lemma_to_be_be(four);
            assert(envelope.len() == be(four));
            assert(framed(envelope) =~= buf.take(n as int));
            assert(frames(buf).skip(1) =~= frames(rest));
            assert(framed_all(frames(buf)) =~= framed(envelope) + framed_all(frames(rest)));
            assert(framed_all(frames(buf)) + unframed(buf) =~= buf.take(n as int) + (framed_all(
                frames(rest),
            ) + unframed(rest)));
            assert(buf.take(n as int) + rest =~= buf);
        },
    }
}

} // verus!
