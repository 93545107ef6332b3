//! Envelopes in ready-made frames: each encoder returns the whole frame, length included,
//! so that writing it is one write.

use bytes::{Bytes, BytesMut};
use vstd::prelude::*;
use crate::be::{lemma_to_be_len, to_be};
use crate::buf::{
    buf_freeze, buf_put_slice, buf_put_u32, buf_put_u8, buf_with_capacity, bytes_as_slice,
    bytes_from_static, bytes_mut_view, bytes_slice_from, bytes_view,
};
use crate::protocol::{
    decoded, encoded, framed, sixteen, Envelope, Identity, Message, MsgId, IDENTITY_SIZE,
    MSG_ID_SIZE, PROTOCOL_VERSION, T_ACK, T_DATA, T_DATA_REQ, T_HEARTBEAT, T_HELLO,
};

verus! {

/// The length field for an envelope of `n` bytes.
fn length_of(n: usize) -> (r: u32)
    ensures
        r == n as nat % 0x1_0000_0000,
{
    (n as u64 % 0x1_0000_0000) as u32
}

/// A frame with a `HELLO` of this version.
pub fn hello(identity: &Identity) -> (r: Bytes)
    ensures
        bytes_view(r) == framed(
            encoded(Message::Hello { version: PROTOCOL_VERSION, identity: identity@ }),
        ),
{
    let body_len: usize = 2 + IDENTITY_SIZE;
    proof {
        lemma_to_be_len(18, 4);
    }
    let mut b: BytesMut = buf_with_capacity(4 + body_len);
    buf_put_u32(&mut b, length_of(body_len));
    buf_put_u8(&mut b, T_HELLO);
    buf_put_u8(&mut b, PROTOCOL_VERSION);
    buf_put_slice(&mut b, identity.as_slice());
    assert(bytes_mut_view(b) =~= to_be(18, 4) + (seq![T_HELLO, PROTOCOL_VERSION] + identity@));
    buf_freeze(b)
}

/// A frame with a `HEARTBEAT`.
pub fn heartbeat() -> (r: Bytes)
    ensures
        bytes_view(r) == framed(encoded(Message::Heartbeat)),
{
    let r: Bytes = bytes_from_static(&[0, 0, 0, 1, T_HEARTBEAT]);
    proof {
        reveal_with_fuel(to_be, 5);
        assert(to_be(1, 4) =~= seq![0u8, 0u8, 0u8, 1u8]);
        assert(bytes_view(r) =~= to_be(1, 4) + seq![T_HEARTBEAT]);
    }
    r
}

/// A frame with a `DATA` envelope.
pub fn data(payload: &[u8]) -> (r: Bytes)
    requires
        payload@.len() + 5 <= isize::MAX,
    ensures
        bytes_view(r) == framed(encoded(Message::Data { payload: payload@ })),
{
    let body_len: usize = 1 + payload.len();
    let mut b: BytesMut = buf_with_capacity(4 + body_len);
    proof {
        lemma_to_be_len(body_len as nat % 0x1_0000_0000, 4);
    }
    buf_put_u32(&mut b, length_of(body_len));
    buf_put_u8(&mut b, T_DATA);
    buf_put_slice(&mut b, payload);
    assert(bytes_mut_view(b) =~= framed(seq![T_DATA] + payload@));
    buf_freeze(b)
}

/// A frame with a `DATA_REQ` envelope.
pub fn data_req(msg_id: &MsgId, payload: &[u8]) -> (r: Bytes)
    requires
        payload@.len() + 21 <= isize::MAX,
    ensures
        bytes_view(r) == framed(
            encoded(Message::DataReq { msg_id: msg_id@, payload: payload@ }),
        ),
{
    let body_len: usize = 1 + MSG_ID_SIZE + payload.len();
    let mut b: BytesMut = buf_with_capacity(4 + body_len);
    proof {
        lemma_to_be_len(body_len as nat % 0x1_0000_0000, 4);
    }
    buf_put_u32(&mut b, length_of(body_len));
    buf_put_u8(&mut b, T_DATA_REQ);
    buf_put_slice(&mut b, msg_id.as_slice());
    buf_put_slice(&mut b, payload);
    assert(bytes_mut_view(b) =~= framed(seq![T_DATA_REQ] + msg_id@ + payload@));
    buf_freeze(b)
}

/// A frame with an `ACK` envelope.
pub fn ack(msg_id: &MsgId) -> (r: Bytes)
    ensures
        bytes_view(r) == framed(encoded(Message::Ack { msg_id: msg_id@ })),
{
    let body_len: usize = 1 + MSG_ID_SIZE;
    proof {
        lemma_to_be_len(17, 4);
    }
    let mut b: BytesMut = buf_with_capacity(4 + body_len);
    buf_put_u32(&mut b, length_of(body_len));
    buf_put_u8(&mut b, T_ACK);
    buf_put_slice(&mut b, msg_id.as_slice());
    assert(bytes_mut_view(b) =~= to_be(17, 4) + (seq![T_ACK] + msg_id@));
    buf_freeze(b)
}

/// Decodes one envelope, whose payload stays part of `buf`. `None` if it is empty, cut
/// short or of a type not known.
pub fn decode(buf: Bytes) -> (r: Option<Envelope>)
    ensures
        match r {
            Some(e) => decoded(bytes_view(buf)) == Some(e@),
            None => decoded(bytes_view(buf)) is None,
        },
{
    let all: &[u8] = bytes_as_slice(&buf);
    if all.len() == 0 {
        return None;
    }
    let t: u8 = all[0];
    let body: Bytes = bytes_slice_from(&buf, 1);
    let fields: &[u8] = bytes_as_slice(&body);
    if t == T_HELLO {
        if fields.len() < 1 + IDENTITY_SIZE {
            return None;
        }
        let version: u8 = fields[0];
        Some(Envelope::Hello { version, identity: sixteen(fields, 1) })
    } else if t == T_HEARTBEAT {
        Some(Envelope::Heartbeat)
    } else if t == T_DATA {
        Some(Envelope::Data { payload: body })
    } else if t == T_DATA_REQ {
        if fields.len() < MSG_ID_SIZE {
            return None;
        }
        assert(fields@.take(16) =~= fields@.subrange(0, 16));
        let msg_id: MsgId = sixteen(fields, 0);
        Some(Envelope::DataReq { msg_id, payload: bytes_slice_from(&body, MSG_ID_SIZE) })
    } else if t == T_ACK {
        if fields.len() < MSG_ID_SIZE {
            return None;
        }
        assert(fields@.take(16) =~= fields@.subrange(0, 16));
        Some(Envelope::Ack { msg_id: sixteen(fields, 0) })
    } else {
        None
    }
}

} // verus!
