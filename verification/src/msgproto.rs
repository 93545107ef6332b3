//! Messages behind a four-byte length, with a cap on what is read.

use vstd::prelude::*;
use vstd::utf8::encode_utf8;
use crate::be::{be, be_u32};
use crate::protocol::{
    framed, lemma_four, lemma_frame_whole, next_frame, sixteen, write_frame, Exact, Identity,
};
use crate::ws::upgrade::{text_lossy, utf8_lossy};

verus! {

/// The largest message that is read.
pub const MAX_MESSAGE_SIZE: u32 = 5_000_000;

/// Appends a message behind its length.
pub fn send_msg(out: &mut Vec<u8>, data: &[u8])
    ensures
        final(out)@ == old(out)@ + framed(data@),
{
    write_frame(out, data);
}

/// Appends the UTF-8 of a text behind its length.
pub fn send_string(out: &mut Vec<u8>, string: &str)
    ensures
        final(out)@ == old(out)@ + framed(encode_utf8(string@)),
{
    send_msg(out, string.as_bytes());
}

/// The message at the front of `buf` and the bytes it takes up, if it is there in full and
/// not too large.
pub open spec fn next_msg(buf: Seq<u8>) -> Option<(Seq<u8>, nat)> {
    match next_frame(buf) {
        Some((msg, n)) => if msg.len() <= MAX_MESSAGE_SIZE {
            Some((msg, n))
        } else {
            None
        },
        None => None,
    }
}

/// What is left of `buf` when no message can be read from it: what follows the length of one
/// that is too large, and nothing of one that is cut short.
pub open spec fn past_no_msg(buf: Seq<u8>) -> Seq<u8> {
    if buf.len() >= 4 && be(buf.take(4)) > MAX_MESSAGE_SIZE {
        buf.skip(4)
    } else {
        Seq::empty()
    }
}

/// Where reading a message stands.
pub enum MsgRead {
    /// Read exactly as many bytes as [`MsgReader::wanted`] says.
    ReadOn,
    Message(Vec<u8>),
    /// No message: the peer closed, a read failed or the message is too large.
    Nothing,
}

/// Reads messages from a connection, by exact reads: first the length, then the message.
pub struct MsgReader {
    size: Option<u32>,
}

impl MsgReader {
    /// The size of the message to be read next, if it is known.
    pub closed spec fn size(self) -> Option<nat> {
        match self.size {
            Some(n) => Some(n as nat),
            None => None,
        }
    }

    /// How many bytes to read next.
    pub open spec fn wants(self) -> nat {
        match self.size() {
            Some(n) => n,
            None => 4,
        }
    }

    pub fn new() -> (r: Self)
        ensures
            r.size() is None,
    {
        MsgReader { size: None }
    }

    /// How many bytes to read next.
    pub fn wanted(&self) -> (r: u32)
        ensures
            r == self.wants(),
    {
        match self.size {
            Some(n) => n,
            None => 4,
        }
    }

    /// Takes in what the read brought. A length is a signed number, and may not be negative.
    pub fn step(&mut self, got: Exact) -> (r: MsgRead)
        requires
            got matches Exact::Filled(b) ==> b@.len() == old(self).wants() && (old(self).size() is None ==> be(b@) < 0x8000_0000),
        ensures
            match got {
                Exact::Filled(b) => match old(self).size() {
                    None => if be(b@) > MAX_MESSAGE_SIZE {
                        r is Nothing && final(self).size() is None
                    } else {
                        r is ReadOn && final(self).size() == Some(be(b@))
                    },
                    Some(_) => (r matches MsgRead::Message(m) && m@ == b@) && final(self).size() is None,
                },
                _ => r is Nothing && final(self).size() == old(self).size(),
            },
    {
        match got {
            Exact::Eof => MsgRead::Nothing,
            Exact::Failed => MsgRead::Nothing,
            Exact::Filled(b) => match self.size {
                None => {
                    let size: u32 = be_u32(b[0], b[1], b[2], b[3]);
                    assert(b@ =~= seq![b@[0], b@[1], b@[2], b@[3]]);
                    if size > MAX_MESSAGE_SIZE {
                        return MsgRead::Nothing;
                    }
                    self.size = Some(size);
                    MsgRead::ReadOn
                },
                Some(_) => {
                    self.size = None;
                    MsgRead::Message(b)
                },
            },
        }
    }
}

/// Reads one message from the front of `r`. `None` if it is too large, with only its length
/// consumed, or not there in full, with all consumed. A length is a signed number, and may
/// not be negative.
pub fn read_msg(r: &mut &[u8]) -> (msg: Option<Vec<u8>>)
    requires
        old(r)@.len() >= 4 ==> be(old(r)@.take(4)) < 0x8000_0000,
    ensures
        match msg {
            Some(m) => next_msg(old(r)@) matches Some((e, n)) && m@ == e && final(r)@
                == old(r)@.skip(n as int),
            None => next_msg(old(r)@) is None && final(r)@ == past_no_msg(old(r)@),
        },
{
    let s: &[u8] = *r;
    let total: usize = s.len();
    if total < 4 {
        *r = vstd::slice::slice_subrange(s, total, total);
        assert(r@ =~= Seq::<u8>::empty());
        return None;
    }
    let len: u32 = be_u32(s[0], s[1], s[2], s[3]);
    assert(s@.take(4) =~= seq![s@[0], s@[1], s@[2], s@[3]]);
    *r = vstd::slice::slice_subrange(s, 4, total);
    assert(r@ =~= s@.skip(4));
    if len > MAX_MESSAGE_SIZE {
        assert(next_frame(s@) matches Some((m, n)) ==> m.len() == len);
        return None;
    }
    if ((total - 4) as u64) < len as u64 {
        *r = vstd::slice::slice_subrange(s, total, total);
        assert(r@ =~= Seq::<u8>::empty());
        return None;
    }
    let n: usize = 4 + len as usize;
    let mut out: Vec<u8> = Vec::new();
    let part: &[u8] = vstd::slice::slice_subrange(s, 4, n);
    out.extend_from_slice(part);
    assert(out@ =~= s@.subrange(4, n as int));
    *r = vstd::slice::slice_subrange(s, n, total);
    assert(r@ =~= s@.skip(n as int));
    Some(out)
}

/// Reads one message as text, with a replacement character for what is not UTF-8.
pub fn read_string(r: &mut &[u8]) -> (text: Option<String>)
    requires
        old(r)@.len() >= 4 ==> be(old(r)@.take(4)) < 0x8000_0000,
    ensures
        match text {
            Some(t) => next_msg(old(r)@) matches Some((e, n)) && t@ == utf8_lossy(e) && final(r)@ == old(r)@.skip(n as int),
            None => next_msg(old(r)@) is None && final(r)@ == past_no_msg(old(r)@),
        },
{
    match read_msg(r) {
        Some(bytes) => Some(text_lossy(bytes.as_slice())),
        None => None,
    }
}

/// The identity that a peer's first message is. It has to be sixteen bytes.
pub fn identity_from(msg: &[u8]) -> (r: Identity)
    requires
        msg@.len() == 16,
    ensures
        r@ == msg@,
{
    assert(msg@.subrange(0, 16) =~= msg@);
    sixteen(msg, 0)
}

/// A message that is not too large is read back as it was written, whatever follows it.
pub proof fn lemma_read_back(data: Seq<u8>, rest: Seq<u8>)
    requires
        data.len() <= MAX_MESSAGE_SIZE,
    ensures
        next_msg(framed(data) + rest) == Some((data, framed(data).len())),
{
    crate::protocol::lemma_next_frame(data, rest);
}

/// A message is read exactly when its length says no more than five million bytes and all of
/// them are there; of one that is too large only the length is used up, and of one that is
/// cut short everything.
pub proof fn lemma_msg_whole(buf: Seq<u8>)
    ensures
        buf.len() < 4 ==> next_msg(buf) is None && past_no_msg(buf).len() == 0,
        buf.len() >= 4 ==> ({
            let n = buf[0] * 0x100_0000 + buf[1] * 0x1_0000 + buf[2] * 0x100 + buf[3];
            if n > 5_000_000 {
                next_msg(buf) is None && past_no_msg(buf) == buf.skip(4)
            } else if buf.len() < 4 + n {
                next_msg(buf) is None && past_no_msg(buf).len() == 0
            } else {
                next_msg(buf) == Some((buf.skip(4).take(n), (4 + n) as nat))
            }
        }),
{
    lemma_frame_whole(buf);
    if buf.len() >= 4 {
        lemma_four(buf.take(4));
    }
}

} // verus!
