//! WebSocket frames: what the server sends, and what it reads from a client.

use vstd::prelude::*;
use crate::be::{
    be, be_u16, be_u64, lemma_be_to_be, lemma_to_be_len, pow256, push_be_u16, push_be_u64, to_be,
};

verus! {

pub const OP_CONT: u8 = 0x0;

pub const OP_TEXT: u8 = 0x1;

pub const OP_BIN: u8 = 0x2;

pub const OP_CLOSE: u8 = 0x8;

pub const OP_PING: u8 = 0x9;

pub const OP_PONG: u8 = 0xA;

/// The length field of a frame whose payload has `n` bytes.
pub open spec fn length_field(n: nat) -> Seq<u8> {
    if n < 126 {
        seq![n as u8]
    } else if n < 65536 {
        seq![126u8] + to_be(n, 2)
    } else {
        seq![127u8] + to_be(n, 8)
    }
}

/// A frame from the server: final, unmasked.
pub open spec fn server_bytes(opcode: u8, payload: Seq<u8>) -> Seq<u8> {
    seq![0x80u8 | opcode] + length_field(payload.len()) + payload
}

/// Encodes one frame from the server: final, no reserved bits, unmasked.
pub fn server_frame(opcode: u8, payload: &[u8]) -> (r: Vec<u8>)
    ensures
        r@ == server_bytes(opcode, payload@),
{
    let n: usize = payload.len();
    let mut out: Vec<u8> = Vec::new();
    out.push(0x80 | opcode);
    if n < 126 {
        out.push(n as u8);
    } else if n < 65536 {
        out.push(126);
        push_be_u16(&mut out, n as u16);
    } else {
        out.push(127);
        push_be_u64(&mut out, n as u64);
    }
    assert(out@ =~= seq![0x80u8 | opcode] + length_field(payload@.len()));
    out.extend_from_slice(payload);
    assert(out@ =~= server_bytes(opcode, payload@));
    out
}

// Client frames --------------------------------------------------------------

/// What the front of a client's bytes is.
pub enum Frame {
    /// The payload of a binary frame or of a continuation.
    Data(Seq<u8>),
    Ping(Seq<u8>),
    Pong,
    /// A close, with its code.
    Close(u16),
    /// No whole frame yet.
    NeedMore,
    /// A violation of the protocol, and the code to close with.
    Protocol(u16),
}

/// Bytes behind the second one that hold the length.
pub open spec fn extended(short: int) -> nat {
    if short == 126 {
        2
    } else if short == 127 {
        8
    } else {
        0
    }
}

/// The payload under a mask.
pub open spec fn unmask(bytes: Seq<u8>, mask: Seq<u8>) -> Seq<u8> {
    Seq::new(bytes.len(), |i: int| bytes[i] ^ mask[i % 4])
}

/// The code in a close frame's payload.
pub open spec fn close_code(payload: Seq<u8>) -> u16 {
    if payload.len() >= 2 {
        be(payload.take(2)) as u16
    } else {
        1000
    }
}

/// What a whole frame is. Text, and any opcode that is not assigned, violate the protocol.
pub open spec fn by_opcode(opcode: u8, payload: Seq<u8>) -> Frame {
    if opcode == OP_BIN || opcode == OP_CONT {
        Frame::Data(payload)
    } else if opcode == OP_PING {
        Frame::Ping(payload)
    } else if opcode == OP_PONG {
        Frame::Pong
    } else if opcode == OP_TEXT {
        Frame::Protocol(1003)
    } else if opcode == OP_CLOSE {
        Frame::Close(close_code(payload))
    } else {
        Frame::Protocol(1002)
    }
}

/// What stands at the front of `buf`, and how many bytes it takes up. Reserved bits, a
/// frame without a mask, a length with its top bit set, and a control frame that is
/// fragmented or long are violations; they show in the header and take up nothing.
pub open spec fn parse(buf: Seq<u8>) -> (Frame, nat) {
    if buf.len() < 2 {
        (Frame::NeedMore, 0)
    } else {
        let fin = buf[0] >= 128;
        let reserved = buf[0] / 16 % 8;
        let opcode = (buf[0] % 16) as u8;
        let short = buf[1] % 128;
        let ext = extended(short as int);
        let len = if ext == 0 {
            short as nat
        } else {
            be(buf.subrange(2, 2 + ext as int))
        };
        let head = 2 + ext + 4;
        if reserved != 0 || buf[1] < 128 {
            (Frame::Protocol(1002), 0)
        } else if buf.len() < 2 + ext {
            (Frame::NeedMore, 0)
        } else if short == 127 && buf[2] >= 128 {
            (Frame::Protocol(1002), 0)
        } else if opcode >= 8 && (!fin || len > 125) {
            (Frame::Protocol(1002), 0)
        } else if buf.len() < head + len {
            (Frame::NeedMore, 0)
        } else {
            (
                by_opcode(
                    opcode,
                    unmask(
                        buf.subrange(head as int, (head + len) as int),
                        buf.subrange(head - 4, head as int),
                    ),
                ),
                head + len,
            )
        }
    }
}

/// A parsed client frame.
pub enum Parsed {
    Data(Vec<u8>),
    Ping(Vec<u8>),
    Pong,
    Close(u16),
    NeedMore,
    Protocol(u16),
}

impl View for Parsed {
    type V = Frame;

    open spec fn view(&self) -> Frame {
        match self {
            Parsed::Data(p) => Frame::Data(p@),
            Parsed::Ping(p) => Frame::Ping(p@),
            Parsed::Pong => Frame::Pong,
            Parsed::Close(code) => Frame::Close(*code),
            Parsed::NeedMore => Frame::NeedMore,
            Parsed::Protocol(code) => Frame::Protocol(*code),
        }
    }
}

/// Parses one client frame from the front of `buf`, and says how many bytes it took up.
pub fn parse_client_frame(buf: &[u8]) -> (r: (Parsed, usize))
    ensures
        (r.0@, r.1 as nat) == parse(buf@),
{
    let total: usize = buf.len();
    if total < 2 {
        return (Parsed::NeedMore, 0);
    }
    let b0: u8 = buf[0];
    let b1: u8 = buf[1];
    if b0 / 16 % 8 != 0 {
        return (Parsed::Protocol(1002), 0);
    }
    let opcode: u8 = b0 % 16;
    let fin: bool = b0 >= 128;
    if b1 < 128 {
        return (Parsed::Protocol(1002), 0);
    }
    let mut len: u64 = (b1 % 128) as u64;
    let mut offset: usize = 2;
    if len == 126 {
        if total < 4 {
            return (Parsed::NeedMore, 0);
        }
        len = be_u16(buf[2], buf[3]) as u64;
        assert(buf@.subrange(2, 4) =~= seq![buf@[2], buf@[3]]);
        offset = 4;
    } else if len == 127 {
        if total < 10 {
            return (Parsed::NeedMore, 0);
        }
        if buf[2] >= 128 {
            return (Parsed::Protocol(1002), 0);
        }
        len = be_u64(buf, 2);
        offset = 10;
    }
    if opcode >= 8 && (!fin || len > 125) {
        return (Parsed::Protocol(1002), 0);
    }
    let rest: u64 = (total - offset) as u64;
    if rest < 4 || rest - 4 < len {
        return (Parsed::NeedMore, 0);
    }
    let n: usize = len as usize;
    let head: usize = offset + 4;
    let ghost mask = buf@.subrange(head - 4, head as int);
    let ghost bytes = buf@.subrange(head as int, head + n);
    let mut payload: Vec<u8> = Vec::new();
    let mut i: usize = 0;
    while i < n
        invariant
            i <= n,
            4 <= head,
            head + n <= total,
            total == buf@.len(),
            mask == buf@.subrange(head - 4, head as int),
            bytes == buf@.subrange(head as int, head + n),
            payload@.len() == i,
            forall|j: int| 0 <= j < i ==> payload@[j] == unmask(bytes, mask)[j],
        decreases n - i,
    {
        payload.push(buf[head + i] ^ buf[head - 4 + i % 4]);
        i = i + 1;
    }
    assert(payload@ =~= unmask(bytes, mask));
    let consumed: usize = head + n;
    let parsed: Parsed = if opcode == OP_BIN || opcode == OP_CONT {
        Parsed::Data(payload)
    } else if opcode == OP_PING {
        Parsed::Ping(payload)
    } else if opcode == OP_PONG {
        Parsed::Pong
    } else if opcode == OP_TEXT {
        Parsed::Protocol(1003)
    } else if opcode == OP_CLOSE {
        if payload.len() >= 2 {
            assert(payload@.take(2) =~= seq![payload@[0], payload@[1]]);
            Parsed::Close(be_u16(payload[0], payload[1]))
        } else {
            Parsed::Close(1000)
        }
    } else {
        Parsed::Protocol(1002)
    };
    (parsed, consumed)
}

// Laws -----------------------------------------------------------------------

/// A frame that has arrived in full is read the same whatever arrives behind it.
pub proof fn lemma_parse_extend(buf: Seq<u8>, more: Seq<u8>)
    requires
        parse(buf).0 != Frame::NeedMore,
    ensures
        parse(buf + more) == parse(buf),
        parse(buf).1 <= buf.len(),
{
    let all = buf + more;
    let ext = extended((buf[1] % 128) as int);
    if buf.len() >= 2 + ext {
        assert(all.subrange(2, 2 + ext as int) =~= buf.subrange(2, 2 + ext as int));
        let len = if ext == 0 {
            (buf[1] % 128) as nat
        } else {
            be(buf.subrange(2, 2 + ext as int))
        };
        let head = 2 + ext + 4;
        if buf.len() >= head + len {
            assert(all.subrange(head as int, (head + len) as int) =~= buf.subrange(
                head as int,
                (head + len) as int,
            ));
            assert(all.subrange(head - 4, head as int) =~= buf.subrange(head - 4, head as int));
        }
    }
}

/// A whole frame shows by itself: what follows it has no part in what it is.
pub proof fn lemma_parse_exact(buf: Seq<u8>)
    ensures
        parse(buf).1 <= buf.len(),
        parse(buf).1 > 0 ==> parse(buf.take(parse(buf).1 as int)) == parse(buf),
        parse(buf).1 == 0 ==> parse(buf).0 is NeedMore || parse(buf).0 is Protocol,
{
    let n = parse(buf).1;
    if n > 0 {
        let one = buf.take(n as int);
        let short = buf[1] % 128;
        let ext = extended(short as int);
        let head = 2 + ext + 4;
        assert(one.subrange(2, 2 + ext as int) =~= buf.subrange(2, 2 + ext as int));
        assert(one.subrange(head as int, n as int) =~= buf.subrange(head as int, n as int));
        assert(one.subrange(head - 4, head as int) =~= buf.subrange(head - 4, head as int));
    }
}

/// A whole frame takes up bytes.
pub proof fn lemma_parse_consumes(buf: Seq<u8>)
    ensures
        parse(buf).0 is Data || parse(buf).0 is Ping || parse(buf).0 is Pong || parse(
            buf,
        ).0 is Close ==> 0 < parse(buf).1 <= buf.len(),
{
}

/// A frame from a client, with no reserved bits set.
pub open spec fn client_bytes(fin: bool, opcode: u8, mask: Seq<u8>, payload: Seq<u8>) -> Seq<u8> {
    let first = if fin {
        (128 + opcode) as u8
    } else {
        opcode
    };
    let field = length_field(payload.len());
    seq![first, (128 + field[0]) as u8] + field.skip(1) + mask + unmask(payload, mask)
}

/// Masking twice under one mask changes nothing.
pub proof fn lemma_unmask_unmask(payload: Seq<u8>, mask: Seq<u8>)
    ensures
        unmask(unmask(payload, mask), mask) == payload,
{
    assert forall|i: int| 0 <= i < payload.len() implies unmask(unmask(payload, mask), mask)[i]
        == payload[i] by {
        let p = payload[i];
        let m = mask[i % 4];
        assert((p ^ m) ^ m == p) by (bit_vector);
    }
    assert(unmask(unmask(payload, mask), mask) =~= payload);
}

/// A client's frame is read as what it is, whatever follows it.
pub proof fn lemma_parse_client(
    fin: bool,
    opcode: u8,
    mask: Seq<u8>,
    payload: Seq<u8>,
    rest: Seq<u8>,
)
    requires
        opcode < 16,
        opcode >= 8 ==> fin && payload.len() <= 125,
        mask.len() == 4,
        payload.len() < 0x8000_0000_0000_0000,
    ensures
        parse(client_bytes(fin, opcode, mask, payload) + rest) == (
            by_opcode(opcode, payload),
            client_bytes(fin, opcode, mask, payload).len(),
        ),
{
    let n = payload.len();
    let field = length_field(n);
    let ext = (field.len() - 1) as nat;
    let frame = client_bytes(fin, opcode, mask, payload);
    let buf = frame + rest;
    let head = 2 + ext + 4;
    lemma_to_be_len(n, 2);
    lemma_to_be_len(n, 8);
    assert(frame.len() == head + n);
    assert(buf[0] == frame[0]);
    assert(buf[1] == frame[1]);
    assert(buf[1] % 128 == field[0]);
    assert(extended(field[0] as int) == ext);
    assert(buf.subrange(2, 2 + ext as int) =~= field.skip(1));
    reveal_with_fuel(pow256, 9);
    if ext == 2 {
        lemma_be_to_be(n, 2);
        assert(field.skip(1) =~= to_be(n, 2));
    } else if ext == 8 {
        lemma_be_to_be(n, 8);
        assert(field.skip(1) =~= to_be(n, 8));
        lemma_top_byte(n);
        assert(buf[2] == to_be(n, 8)[0]);
    }
    assert(buf.subrange(head as int, (head + n) as int) =~= unmask(payload, mask));
    assert(buf.subrange(head - 4, head as int) =~= mask);
    lemma_unmask_unmask(payload, mask);
}

/// The first of the eight bytes of a number below 2^63 has its top bit clear.
proof fn lemma_top_byte(n: nat)
    requires
        n < 0x8000_0000_0000_0000,
    ensures
        to_be(n, 8).len() == 8,
        to_be(n, 8)[0] < 128,
{
    lemma_to_be_len(n, 8);
    let hi = n / 0x100_0000_0000_0000;
    let lo = n % 0x100_0000_0000_0000;
    reveal_with_fuel(pow256, 8);
    assert(pow256(7) == 0x100_0000_0000_0000);
    crate::be::lemma_to_be_split(hi, lo, 1, 7);
    assert(hi * pow256(7) + lo == n);
    lemma_to_be_len(hi, 1);
    reveal_with_fuel(to_be, 2);
    assert(to_be(hi, 1) =~= seq![(hi % 256) as u8]);
    assert(to_be(n, 8)[0] == to_be(hi, 1)[0]);
}

/// What a client reads at the front of the server's bytes: opcode, payload, size.
pub open spec fn read_server(buf: Seq<u8>) -> Option<(u8, Seq<u8>, nat)> {
    let ext = extended(buf[1] as int);
    let len = if ext == 0 {
        buf[1] as nat
    } else {
        be(buf.subrange(2, 2 + ext as int))
    };
    if buf.len() < 2 || buf[0] < 128 || buf.len() < 2 + ext || buf.len() < 2 + ext + len {
        None
    } else {
        Some(
            (
                (buf[0] - 128) as u8,
                buf.subrange(2 + ext as int, (2 + ext + len) as int),
                2 + ext + len,
            ),
        )
    }
}

/// A server's frame is read back as its opcode and its payload, whatever follows it.
pub proof fn lemma_read_server(opcode: u8, payload: Seq<u8>, rest: Seq<u8>)
    requires
        opcode < 16,
        payload.len() <= u64::MAX,
    ensures
        read_server(server_bytes(opcode, payload) + rest) == Some(
            (opcode, payload, server_bytes(opcode, payload).len()),
        ),
{
    let n = payload.len();
    let field = length_field(n);
    let ext = (field.len() - 1) as nat;
    let frame = server_bytes(opcode, payload);
    let buf = frame + rest;
    assert(0x80u8 | opcode == 128 + opcode) by (bit_vector)
        requires
            opcode < 16,
    ;
    lemma_to_be_len(n, 2);
    lemma_to_be_len(n, 8);
    assert(buf[1] == field[0]);
    assert(extended(field[0] as int) == ext);
    assert(buf.subrange(2, 2 + ext as int) =~= field.skip(1));
    reveal_with_fuel(pow256, 9);
    if ext == 2 {
        lemma_be_to_be(n, 2);
        assert(field.skip(1) =~= to_be(n, 2));
    } else if ext == 8 {
        lemma_be_to_be(n, 8);
        assert(field.skip(1) =~= to_be(n, 8));
    }
    assert(buf.subrange(2 + ext as int, (2 + ext + n) as int) =~= payload);
}

/// What the opcodes mean: payload in binary frames and continuations, pings, pongs, closes;
/// text is refused as such and every other opcode as a violation.
pub proof fn lemma_opcodes(opcode: u8, payload: Seq<u8>)
    ensures
        by_opcode(0, payload) == Frame::Data(payload),
        by_opcode(2, payload) == Frame::Data(payload),
        by_opcode(9, payload) == Frame::Ping(payload),
        by_opcode(10, payload) == Frame::Pong,
        by_opcode(1, payload) == Frame::Protocol(1003),
        payload.len() < 2 ==> by_opcode(8, payload) == Frame::Close(1000),
        payload.len() >= 2 ==> (by_opcode(8, payload) matches Frame::Close(code) && code == payload[0]
            * 256 + payload[1]),
        3 <= opcode <= 7 || opcode >= 11 ==> by_opcode(opcode, payload) == Frame::Protocol(1002),
{
    if payload.len() >= 2 {
        let two = payload.take(2);
        assert(two =~= seq![payload[0], payload[1]]);
        lemma_be_two(payload[0], payload[1]);
    }
}

proof fn lemma_be_two(a: u8, b: u8)
    ensures
        be(seq![a, b]) == a * 256 + b,
{
    reveal_with_fuel(be, 3);
    assert(seq![a, b].drop_last() =~= seq![a]);
    assert(seq![a].drop_last() =~= Seq::<u8>::empty());
}

/// Masks are four bytes, applied to the payload byte by byte, round and round.
pub proof fn lemma_unmask_is(bytes: Seq<u8>, mask: Seq<u8>, i: int)
    requires
        0 <= i < bytes.len(),
    ensures
        unmask(bytes, mask).len() == bytes.len(),
        unmask(bytes, mask)[i] == bytes[i] ^ mask[i % 4],
{
}

/// The length of a payload is one byte, or a mark and two or eight bytes, whichever is the
/// first to hold it.
pub proof fn lemma_length_field(n: nat)
    requires
        n < 0x1_0000_0000_0000_0000,
    ensures
        n < 126 ==> length_field(n) == seq![n as u8],
        126 <= n < 65536 ==> length_field(n).len() == 3 && length_field(n)[0] == 126 && be(
            length_field(n).skip(1),
        ) == n,
        n >= 65536 ==> length_field(n).len() == 9 && length_field(n)[0] == 127 && be(
            length_field(n).skip(1),
        ) == n,
{
    lemma_to_be_len(n, 2);
    lemma_to_be_len(n, 8);
    reveal_with_fuel(pow256, 9);
    if n >= 126 {
        if n < 65536 {
            lemma_be_to_be(n, 2);
            assert(length_field(n).skip(1) =~= to_be(n, 2));
        } else {
            lemma_be_to_be(n, 8);
            assert(length_field(n).skip(1) =~= to_be(n, 8));
        }
    }
}

/// A frame from the server is final and unmasked: its opcode with the top bit set, the length
/// of its payload, the payload.
pub proof fn lemma_server_bytes(opcode: u8, payload: Seq<u8>)
    requires
        opcode < 16,
    ensures
        server_bytes(opcode, payload)[0] == 128 + opcode,
        server_bytes(opcode, payload).skip(1) == length_field(payload.len()) + payload,
{
    assert(0x80u8 | opcode == 128 + opcode) by (bit_vector)
        requires
            opcode < 16,
    ;
    assert(server_bytes(opcode, payload).skip(1) =~= length_field(payload.len()) + payload);
}

/// Reserved bits, a frame without a mask, and a control frame that is fragmented or long show
/// in the header and violate the protocol.
pub proof fn lemma_bad_header(buf: Seq<u8>)
    requires
        buf.len() >= 2,
    ensures
        (buf[0] / 16) % 8 != 0 || buf[1] < 128 ==> parse(buf) == (Frame::Protocol(1002), 0nat),
        buf[0] % 16 >= 8 && (buf[0] < 128 || buf[1] % 128 == 126 && buf.len() >= 4 && (buf[2] > 0
            || buf[3] > 125)) ==> parse(buf).0 is Protocol || buf[1] % 128 >= 126 && parse(
            buf,
        ).0 is NeedMore,
        buf[1] == 255 && buf.len() >= 10 && buf[2] >= 128 ==> parse(buf) == (
            Frame::Protocol(1002),
            0nat,
        ),
{
    if buf.len() >= 4 && buf[1] % 128 == 126 {
        assert(buf.subrange(2, 4) =~= seq![buf[2], buf[3]]);
        lemma_be_two(buf[2], buf[3]);
    }
}

/// A client's frame that has not arrived whole is waited for.
pub proof fn lemma_parse_waits(fin: bool, opcode: u8, mask: Seq<u8>, payload: Seq<u8>, k: int)
    requires
        opcode < 16,
        opcode >= 8 ==> fin && payload.len() <= 125,
        mask.len() == 4,
        payload.len() < 0x8000_0000_0000_0000,
        0 <= k < client_bytes(fin, opcode, mask, payload).len(),
    ensures
        parse(client_bytes(fin, opcode, mask, payload).take(k)) == (Frame::NeedMore, 0nat),
{
    let n = payload.len();
    let field = length_field(n);
    let ext = (field.len() - 1) as nat;
    let frame = client_bytes(fin, opcode, mask, payload);
    let buf = frame.take(k);
    let head = 2 + ext + 4;
    lemma_to_be_len(n, 2);
    lemma_to_be_len(n, 8);
    assert(frame.len() == head + n);
    if k >= 2 {
        assert(buf[0] == frame[0]);
        assert(buf[1] == frame[1]);
        assert(buf[1] % 128 == field[0]);
        assert(extended(field[0] as int) == ext);
        if k >= 2 + ext {
            assert(buf.subrange(2, 2 + ext as int) =~= field.skip(1));
            reveal_with_fuel(pow256, 9);
            if ext == 2 {
                lemma_be_to_be(n, 2);
                assert(field.skip(1) =~= to_be(n, 2));
            } else if ext == 8 {
                lemma_be_to_be(n, 8);
                assert(field.skip(1) =~= to_be(n, 8));
                lemma_top_byte(n);
                assert(buf[2] == to_be(n, 8)[0]);
            }
        }
    }
}

} // verus!
