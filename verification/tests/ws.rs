use aiomsg::inbound::Inbound;
use aiomsg::ws::base64::{base64_decode, base64_encode};
use aiomsg::ws::duplex::{FlushStep, Parsing, PollStep, Prefixed, Written, WsDuplex};
use aiomsg::ws::frame::{
    parse_client_frame, server_frame, Parsed, OP_BIN, OP_CLOSE, OP_CONT, OP_PING, OP_PONG, OP_TEXT,
};
use aiomsg::ws::handshake::{
    accept_upgrade, error_response, find_subsequence, route_first_byte, sniff_and_wrap,
    success_response, Route, SniffStep, UpgradeStep,
};
use aiomsg::ws::sha1::{sha1, Sha1};
use aiomsg::ws::stream::{ReadStep, WsStream};
use aiomsg::ws::upgrade::{accept_key, compute_accept, parse_upgrade, parse_upgrade_lossy};

const KEY: &str = "dGhlIHNhbXBsZSBub25jZQ==";

/// A stream over canned input, with the output captured. Reads past the input's end close.
struct Duplex {
    ws: WsStream,
    input: Vec<u8>,
    pos: usize,
    output: Vec<u8>,
}

impl Duplex {
    fn new(input: Vec<u8>) -> Self {
        Duplex { ws: WsStream::new(&[]), input, pos: 0, output: Vec::new() }
    }

    fn read(&mut self, max: usize) -> Vec<u8> {
        loop {
            match self.ws.read(max) {
                ReadStep::Bytes(b) => return b,
                ReadStep::Eof => return Vec::new(),
                ReadStep::NeedInput => {
                    let end = self.input.len().min(self.pos + 512);
                    let got = self.input[self.pos..end].to_vec();
                    self.pos = end;
                    self.ws.feed(&got);
                }
                ReadStep::Reply(b) => self.output.extend_from_slice(&b),
                ReadStep::Farewell(b) => self.output.extend_from_slice(&b),
            }
        }
    }

    fn read_all(&mut self, n: usize) -> Vec<u8> {
        let mut got = Vec::new();
        while got.len() < n {
            let part = self.read(512);
            if part.is_empty() {
                break;
            }
            got.extend_from_slice(&part);
        }
        got
    }
}

/// The same for a polled stream; `output` is what was flushed.
struct Polled {
    ws: WsDuplex,
    input: Vec<u8>,
    output: Vec<u8>,
}

impl Polled {
    fn new(input: &[u8]) -> Self {
        Polled { ws: WsDuplex::new(), input: input.to_vec(), output: Vec::new() }
    }

    fn flush(&mut self) {
        loop {
            let n = self.ws.queued().len();
            let took = n.min(3);
            let part = self.ws.queued()[..took].to_vec();
            self.output.extend_from_slice(&part);
            if self.ws.flush_out(Written::Took(took)) == FlushStep::Done {
                return;
            }
        }
    }

    fn read(&mut self, max: usize) -> Vec<u8> {
        loop {
            self.flush();
            match self.ws.poll_read(max) {
                PollStep::Bytes(b) => return b,
                PollStep::Eof => return Vec::new(),
                PollStep::Again => {}
                PollStep::NeedInput => {
                    let got = self.input.clone();
                    self.input.clear();
                    self.ws.feed(&got);
                }
            }
        }
    }

    fn read_exact(&mut self, n: usize) -> Vec<u8> {
        let mut got = Vec::new();
        while got.len() < n {
            let part = self.read(n - got.len());
            assert!(!part.is_empty());
            got.extend_from_slice(&part);
        }
        got
    }
}

fn client_frame(opcode: u8, payload: &[u8], fin: bool) -> Vec<u8> {
    let mask = [0xa1u8, 0xb2, 0xc3, 0xd4];
    let n = payload.len();
    let mut out = vec![(if fin { 0x80 } else { 0 }) | opcode];
    if n < 126 {
        out.push(0x80 | n as u8);
    } else if n < 65536 {
        out.push(0x80 | 126);
        out.extend_from_slice(&(n as u16).to_be_bytes());
    } else {
        out.push(0x80 | 127);
        out.extend_from_slice(&(n as u64).to_be_bytes());
    }
    out.extend_from_slice(&mask);
    for (i, b) in payload.iter().enumerate() {
        out.push(b ^ mask[i & 3]);
    }
    out
}

#[test]
fn ws_accept_key_rfc_vector() {
    assert_eq!(accept_key("dGhlIHNhbXBsZSBub25jZQ=="), "s3pPLMBiTxaQ9kYGzzhZRbK+xOo=");
    assert_eq!(compute_accept("dGhlIHNhbXBsZSBub25jZQ=="), "s3pPLMBiTxaQ9kYGzzhZRbK+xOo=");
}

#[test]
fn parse_upgrade_ok_and_rejects() {
    let good = b"GET / HTTP/1.1\r\nHost: x\r\nUpgrade: websocket\r\nConnection: keep-alive, Upgrade\r\nSec-WebSocket-Key: dGhlIHNhbXBsZSBub25jZQ==\r\nSec-WebSocket-Version: 13\r\n\r\n";
    assert_eq!(parse_upgrade_lossy(good).unwrap(), "dGhlIHNhbXBsZSBub25jZQ==");
    let no_upgrade = b"GET / HTTP/1.1\r\nConnection: Upgrade\r\nSec-WebSocket-Key: dGhlIHNhbXBsZSBub25jZQ==\r\nSec-WebSocket-Version: 13\r\n\r\n";
    assert_eq!(parse_upgrade_lossy(no_upgrade), Err("400 Bad Request"));
    let bad_ver = b"GET / HTTP/1.1\r\nUpgrade: websocket\r\nConnection: Upgrade\r\nSec-WebSocket-Key: dGhlIHNhbXBsZSBub25jZQ==\r\nSec-WebSocket-Version: 8\r\n\r\n";
    assert_eq!(parse_upgrade_lossy(bad_ver), Err("426 Upgrade Required"));
    let bad_key = b"GET / HTTP/1.1\r\nUpgrade: websocket\r\nConnection: Upgrade\r\nSec-WebSocket-Key: short\r\nSec-WebSocket-Version: 13\r\n\r\n";
    assert_eq!(parse_upgrade_lossy(bad_key), Err("400 Bad Request"));
}

#[test]
fn parse_upgrade_valid() {
    let req = b"GET /chat HTTP/1.1\r\nHost: x\r\nUpgrade: websocket\r\n\
                Connection: keep-alive, Upgrade\r\n\
                Sec-WebSocket-Key: dGhlIHNhbXBsZSBub25jZQ==\r\n\
                Sec-WebSocket-Version: 13\r\nOrigin: http://evil\r\n\r\n";
    assert_eq!(parse_upgrade(req).unwrap(), "dGhlIHNhbXBsZSBub25jZQ==");
}

#[test]
fn parse_upgrade_rejects() {
    let cases: &[(&[u8], &str)] = &[
        (b"POST / HTTP/1.1\r\nUpgrade: websocket\r\nConnection: Upgrade\r\nSec-WebSocket-Key: dGhlIHNhbXBsZSBub25jZQ==\r\nSec-WebSocket-Version: 13\r\n\r\n", "400"),
        (b"GET / HTTP/1.1\r\nConnection: Upgrade\r\nSec-WebSocket-Key: dGhlIHNhbXBsZSBub25jZQ==\r\nSec-WebSocket-Version: 13\r\n\r\n", "400"),
        (b"GET / HTTP/1.1\r\nUpgrade: websocket\r\nConnection: Upgrade\r\nSec-WebSocket-Key: dGhlIHNhbXBsZSBub25jZQ==\r\nSec-WebSocket-Version: 8\r\n\r\n", "426"),
        (b"GET / HTTP/1.1\r\nUpgrade: websocket\r\nConnection: Upgrade\r\nSec-WebSocket-Key: short\r\nSec-WebSocket-Version: 13\r\n\r\n", "400"),
    ];
    for (req, status) in cases {
        assert!(parse_upgrade(req).unwrap_err().starts_with(status));
    }
}

#[test]
fn ws_masked_binary_unmasked_into_stream() {
    let mut ws = Duplex::new(client_frame(OP_BIN, b"aiomsg-payload", true));
    assert_eq!(ws.read_all(14), b"aiomsg-payload");
    let mut ws = Polled::new(&client_frame(OP_BIN, b"aiomsg-payload", true));
    assert_eq!(ws.read_exact(14), b"aiomsg-payload");
}

#[test]
fn ws_fragmented_binary_reassembles() {
    let mut input = client_frame(OP_BIN, b"abc", false);
    input.extend(client_frame(OP_CONT, b"def", false));
    input.extend(client_frame(OP_CONT, b"ghi", true));
    let mut polled = Polled::new(&input);
    let mut ws = Duplex::new(input);
    assert_eq!(ws.read_all(9), b"abcdefghi");
    assert_eq!(polled.read_exact(9), b"abcdefghi");
}

#[test]
fn ws_ping_gets_pong_then_data() {
    let mut input = client_frame(OP_PING, b"pingdata", true);
    input.extend(client_frame(OP_BIN, b"XY", true));
    let mut polled = Polled::new(&input);
    let mut ws = Duplex::new(input);
    assert_eq!(ws.read_all(2), b"XY");
    assert_eq!(ws.output, server_frame(OP_PONG, b"pingdata"));
    assert_eq!(polled.read_exact(2), b"XY");
    polled.flush();
    assert_eq!(polled.output, server_frame(OP_PONG, b"pingdata"));
}

#[test]
fn close_frame_echoes_and_ends() {
    let mut ws = Duplex::new(client_frame(OP_CLOSE, &1000u16.to_be_bytes(), true));
    assert_eq!(ws.read_all(1), b"");
    assert_eq!(ws.output, server_frame(OP_CLOSE, &1000u16.to_be_bytes()));
}

#[test]
fn close_frame_echoed_and_eof() {
    let mut ws = Polled::new(&client_frame(OP_CLOSE, &1000u16.to_be_bytes(), true));
    assert_eq!(ws.read(1), b"");
    assert_eq!(ws.output, server_frame(OP_CLOSE, &1000u16.to_be_bytes()));
}

#[test]
fn ws_text_frame_rejected_1003() {
    let mut ws = Duplex::new(client_frame(OP_TEXT, b"hi", true));
    assert_eq!(ws.read_all(1), b"");
    assert_eq!(ws.output, server_frame(OP_CLOSE, &1003u16.to_be_bytes()));
    let mut ws = Polled::new(&client_frame(OP_TEXT, b"hi", true));
    assert_eq!(ws.read(1), b"");
    assert_eq!(ws.output, server_frame(OP_CLOSE, &1003u16.to_be_bytes()));
}

#[test]
fn ws_unmasked_frame_rejected_1002() {
    let mut input = vec![0x80 | OP_BIN, 0x04];
    input.extend_from_slice(b"nope");
    let mut polled = Polled::new(&input);
    let mut ws = Duplex::new(input);
    assert_eq!(ws.read_all(1), b"");
    assert_eq!(ws.output, server_frame(OP_CLOSE, &1002u16.to_be_bytes()));
    assert_eq!(polled.read(1), b"");
    assert_eq!(polled.output, server_frame(OP_CLOSE, &1002u16.to_be_bytes()));
}

#[test]
fn one_binary_frame_per_write() {
    let ws = WsStream::new(&[]);
    assert_eq!(ws.write(b"\x00\x00\x00\x03abc"), server_frame(OP_BIN, b"\x00\x00\x00\x03abc"));
}

#[test]
fn write_emits_one_binary_frame() {
    let mut ws = Polled::new(&[]);
    assert!(ws.ws.poll_write(b"\x00\x00\x00\x03abc"));
    assert!(!ws.ws.poll_write(b"not yet"));
    ws.flush();
    assert_eq!(ws.output, server_frame(OP_BIN, b"\x00\x00\x00\x03abc"));
}

#[test]
fn sha1_vectors() {
    let hex = |d: [u8; 20]| d.iter().map(|b| format!("{:02x}", b)).collect::<Vec<_>>().concat();
    assert_eq!(hex(sha1(b"")), "da39a3ee5e6b4b0d3255bfef95601890afd80709");
    assert_eq!(hex(sha1(b"abc")), "a9993e364706816aba3e25717850c26c9cd0d89d");
    let two = b"abcdbcdecdefdefgefghfghighijhijkijkljklmklmnlmnomnopnopq";
    assert_eq!(hex(sha1(two)), "84983e441c3bd26ebaae4aa1f95129e5e54670f1");
    let million = vec![b'a'; 1_000_000];
    assert_eq!(hex(sha1(&million)), "34aa973cd4c4daa4f61eeb2bdbad27316534016f");
}

#[test]
fn sha1_in_pieces_is_sha1_at_once() {
    let data: Vec<u8> = (0..200u8).collect();
    for cut in 0..data.len() {
        let mut h = Sha1::new();
        h.update(&data[..cut]);
        h.update(&data[cut..]);
        assert_eq!(h.finish(), sha1(&data));
    }
}

#[test]
fn base64_vectors() {
    let pairs: [(&[u8], &str); 7] = [
        (b"", ""),
        (b"f", "Zg=="),
        (b"fo", "Zm8="),
        (b"foo", "Zm9v"),
        (b"foob", "Zm9vYg=="),
        (b"fooba", "Zm9vYmE="),
        (b"foobar", "Zm9vYmFy"),
    ];
    for (bytes, text) in pairs {
        assert_eq!(base64_encode(bytes), text);
        assert_eq!(base64_decode(text).unwrap(), bytes);
    }
    let all: Vec<u8> = (0..=255u8).collect();
    assert_eq!(base64_decode(&base64_encode(&all)).unwrap(), all);
    assert_eq!(base64_decode("Zg").unwrap(), b"f");
    assert_eq!(base64_decode("Z").unwrap(), b"");
    assert_eq!(base64_decode("Z=g="), None);
    assert_eq!(base64_decode("Zm9v!"), None);
    assert_eq!(base64_decode("caf\u{e9}"), None);
}

#[test]
fn headers_are_read_loosely() {
    let req = |body: &str| {
        let mut r = String::from("GET / HTTP/1.0\r\n");
        r.push_str(body);
        r.push_str("\r\n\r\n");
        r.into_bytes()
    };
    let ok = req("UPGRADE:\u{a0} WebSocket \r\nconnection:Upgrade\r\nSec-WebSocket-Version: 13\r\nSEC-websocket-KEY : dGhlIHNhbXBsZSBub25jZQ==");
    assert_eq!(parse_upgrade(&ok).unwrap(), KEY);
    assert_eq!(parse_upgrade_lossy(&ok).unwrap(), KEY);
    // The last header of a name counts.
    let twice = req("Upgrade: h2c\r\nUpgrade: websocket\r\nConnection: Upgrade\r\nSec-WebSocket-Version: 13\r\nSec-WebSocket-Key: dGhlIHNhbXBsZSBub25jZQ==");
    assert_eq!(parse_upgrade(&twice).unwrap(), KEY);
    let no_colon = req("Upgrade: websocket\r\nConnection Upgrade\r\nSec-WebSocket-Version: 13\r\nSec-WebSocket-Key: dGhlIHNhbXBsZSBub25jZQ==");
    assert_eq!(parse_upgrade(&no_colon), Err("400 Bad Request"));
    let no_token = req("Upgrade: websocket\r\nConnection: keep-alive\r\nSec-WebSocket-Version: 13\r\nSec-WebSocket-Key: dGhlIHNhbXBsZSBub25jZQ==");
    assert_eq!(parse_upgrade(&no_token), Err("400 Bad Request"));
    let no_key = req("Upgrade: websocket\r\nConnection: Upgrade\r\nSec-WebSocket-Version: 13");
    assert_eq!(parse_upgrade(&no_key), Err("400 Bad Request"));
    let no_version = req("Upgrade: websocket\r\nConnection: Upgrade\r\nSec-WebSocket-Key: dGhlIHNhbXBsZSBub25jZQ==");
    assert_eq!(parse_upgrade(&no_version), Err("426 Upgrade Required"));
}

#[test]
fn request_lines_and_encodings() {
    let rest = "\r\nUpgrade: websocket\r\nConnection: Upgrade\r\nSec-WebSocket-Key: dGhlIHNhbXBsZSBub25jZQ==\r\nSec-WebSocket-Version: 13\r\n\r\n";
    let with = |line: &str| [line.as_bytes(), rest.as_bytes()].concat();
    assert!(parse_upgrade(&with("GET / HTTP/1.1")).is_ok());
    // A fourth word matters to the one and not to the other.
    assert!(parse_upgrade(&with("GET / HTTP/1.1 extra")).is_ok());
    assert_eq!(parse_upgrade_lossy(&with("GET / HTTP/1.1 extra")), Err("400 Bad Request"));
    assert_eq!(parse_upgrade(&with("GET /")), Err("400 Bad Request"));
    assert_eq!(parse_upgrade(&with("GET / HTTP/2")), Err("400 Bad Request"));
    // Bytes that are not UTF-8 are refused by the one and replaced by the other.
    let mut bad = b"GET /\xff HTTP/1.1".to_vec();
    bad.extend_from_slice(rest.as_bytes());
    assert_eq!(parse_upgrade(&bad), Err("400 Bad Request"));
    assert_eq!(parse_upgrade_lossy(&bad).unwrap(), KEY);
}

#[test]
fn replies_are_exact() {
    assert_eq!(
        success_response(KEY),
        b"HTTP/1.1 101 Switching Protocols\r\nUpgrade: websocket\r\nConnection: Upgrade\r\nSec-WebSocket-Accept: s3pPLMBiTxaQ9kYGzzhZRbK+xOo=\r\n\r\n".to_vec()
    );
    assert_eq!(error_response("400 Bad Request"), b"HTTP/1.1 400 Bad Request\r\n\r\n".to_vec());
    assert_eq!(
        error_response("426 Upgrade Required"),
        b"HTTP/1.1 426 Upgrade Required\r\nSec-WebSocket-Version: 13\r\n\r\n".to_vec()
    );
}

const REQUEST: &[u8] = b"GET / HTTP/1.1\r\nUpgrade: websocket\r\nConnection: Upgrade\r\nSec-WebSocket-Key: dGhlIHNhbXBsZSBub25jZQ==\r\nSec-WebSocket-Version: 13\r\n\r\n";

#[test]
fn upgrade_is_served_in_pieces() {
    let mut buf = vec![b'G'];
    assert!(matches!(accept_upgrade(&mut buf, Inbound::Idle, false), UpgradeStep::Read));
    let mut rest = REQUEST[1..].to_vec();
    rest.extend_from_slice(b"first frame");
    let mut accepted = false;
    for part in rest.chunks(7) {
        match accept_upgrade(&mut buf, Inbound::Bytes(part.to_vec()), false) {
            UpgradeStep::Read => {}
            UpgradeStep::Accept { response, leftover } => {
                assert_eq!(response, success_response(KEY));
                assert!(b"first frame".starts_with(&leftover));
                accepted = true;
                break;
            }
            _ => panic!("the request is good"),
        }
    }
    assert!(accepted);
}

#[test]
fn upgrade_gives_up() {
    let step = |got: Inbound, expired: bool| accept_upgrade(&mut b"GET".to_vec(), got, expired);
    assert!(matches!(step(Inbound::Closed, false), UpgradeStep::Close));
    assert!(matches!(step(Inbound::Failed, false), UpgradeStep::Fail));
    assert!(matches!(step(Inbound::Idle, true), UpgradeStep::Close));
    match step(Inbound::Bytes(vec![b'x'; 9000]), true) {
        UpgradeStep::Reject(reply) => assert_eq!(reply, error_response("400 Bad Request")),
        _ => panic!("the request is too long"),
    }
    match step(Inbound::Bytes(b" / HTTP/1.1\r\n\r\n".to_vec()), false) {
        UpgradeStep::Reject(reply) => assert_eq!(reply, error_response("400 Bad Request")),
        _ => panic!("the request asks for nothing"),
    }
}

#[test]
fn sniffing_routes_by_the_first_byte() {
    assert!(route_first_byte(Some(0)) == Route::Raw);
    assert!(route_first_byte(Some(b'G')) == Route::WebSocket);
    assert!(route_first_byte(Some(b'P')) == Route::Close);
    assert!(route_first_byte(None) == Route::Close);

    let mut request = Vec::new();
    match sniff_and_wrap(&mut request, Some(0)) {
        SniffStep::Raw(prefix) => assert_eq!(prefix, vec![0]),
        _ => panic!("a length prefix starts with zero"),
    }
    assert!(matches!(sniff_and_wrap(&mut request, Some(1)), SniffStep::Close));
    assert!(matches!(sniff_and_wrap(&mut request, None), SniffStep::Close));
    for (i, b) in REQUEST.iter().enumerate() {
        match sniff_and_wrap(&mut request, Some(*b)) {
            SniffStep::ReadByte => assert!(i + 1 < REQUEST.len()),
            SniffStep::Accept(reply) => {
                assert_eq!(i + 1, REQUEST.len());
                assert_eq!(reply, success_response(KEY));
            }
            _ => panic!("the request is good"),
        }
    }
    let mut endless = vec![b'G'; 8192];
    match sniff_and_wrap(&mut endless, Some(b'G')) {
        SniffStep::Reject(reply) => assert_eq!(reply, error_response("400 Bad Request")),
        _ => panic!("the request is too long"),
    }
}

#[test]
fn find_subsequence_finds_the_first() {
    assert_eq!(find_subsequence(b"abcabc", b"bc"), Some(1));
    assert_eq!(find_subsequence(b"abcabc", b"cb"), None);
    assert_eq!(find_subsequence(b"ab", b"abc"), None);
    assert_eq!(find_subsequence(b"ab", b""), None);
    assert_eq!(find_subsequence(b"aab", b"ab"), Some(1));
}

#[test]
fn server_frames_by_length() {
    assert_eq!(server_frame(OP_BIN, b"hi"), vec![0x82, 2, b'h', b'i']);
    let f = server_frame(OP_BIN, &[9u8; 126]);
    assert_eq!(&f[..4], &[0x82, 126, 0, 126]);
    assert_eq!(f.len(), 130);
    let f = server_frame(OP_BIN, &vec![9u8; 65536]);
    assert_eq!(&f[..10], &[0x82, 127, 0, 0, 0, 0, 0, 1, 0, 0]);
    assert_eq!(f.len(), 65546);
}

#[test]
fn client_frames_by_length() {
    for n in vec![0usize, 1, 125, 126, 300, 65535, 65536, 70000] {
        let payload: Vec<u8> = (0..n).map(|i| (i * 7 % 251) as u8).collect();
        let frame = client_frame(OP_BIN, &payload, true);
        let (parsed, used) = parse_client_frame(&frame);
        assert_eq!(used, frame.len());
        match parsed {
            Parsed::Data(p) => assert_eq!(p, payload),
            _ => panic!("a binary frame"),
        }
        let (parsed, used) = parse_client_frame(&frame[..frame.len() - 1]);
        assert!(matches!(parsed, Parsed::NeedMore));
        assert_eq!(used, 0);
    }
}

#[test]
fn violations_of_the_frame_format() {
    let code = |frame: &[u8]| match parse_client_frame(frame).0 {
        Parsed::Protocol(code) => code,
        _ => 0,
    };
    let mut reserved = client_frame(OP_BIN, b"x", true);
    reserved[0] |= 0x40;
    assert_eq!(code(&reserved), 1002);
    assert_eq!(code(&client_frame(OP_PING, b"x", false)), 1002);
    assert_eq!(code(&client_frame(OP_PING, &[0u8; 126], true)), 1002);
    assert_eq!(code(&client_frame(0x3, b"x", true)), 1002);
    assert_eq!(code(&client_frame(0xB, b"x", true)), 1002);
    assert_eq!(code(&client_frame(OP_TEXT, b"x", true)), 1003);
    assert_eq!(code(&[0x82, 0xff, 0x80, 0, 0, 0, 0, 0, 0, 0]), 1002);
    assert!(matches!(
        parse_client_frame(&[0x82, 0xff, 0x7f, 0xff, 0xff, 0xff, 0xff, 0xff, 0xff, 0xff]).0,
        Parsed::NeedMore
    ));
    assert!(matches!(parse_client_frame(&client_frame(OP_CLOSE, b"", true)).0, Parsed::Close(1000)));
    assert!(matches!(
        parse_client_frame(&client_frame(OP_CLOSE, &[0x0f, 0xa1, b'!'], true)).0,
        Parsed::Close(4001)
    ));
    assert!(matches!(parse_client_frame(&client_frame(OP_PONG, b"x", true)).0, Parsed::Pong));
}

#[test]
fn stream_is_the_same_however_it_is_cut() {
    let mut input = client_frame(OP_BIN, b"one", true);
    input.extend(client_frame(OP_PONG, b"", true));
    input.extend(client_frame(OP_BIN, b"", true));
    input.extend(client_frame(OP_PING, b"p", true));
    input.extend(client_frame(OP_BIN, &[5u8; 200], true));
    let mut want = b"one".to_vec();
    want.extend_from_slice(&[5u8; 200]);
    for chunk in vec![1usize, 2, 3, 5, 50, 1000] {
        let mut ws = WsStream::new(&[]);
        let mut got = Vec::new();
        let mut sent = Vec::new();
        let mut parts = input.chunks(chunk);
        loop {
            match ws.read(4) {
                ReadStep::Bytes(b) => got.extend_from_slice(&b),
                ReadStep::Eof => break,
                ReadStep::NeedInput => ws.feed(parts.next().unwrap_or(&[])),
                ReadStep::Reply(b) => sent.extend_from_slice(&b),
                ReadStep::Farewell(_) => panic!("nothing ends the stream"),
            }
        }
        assert_eq!(got, want);
        assert_eq!(sent, server_frame(OP_PONG, b"p"));
    }
}

#[test]
fn close_goes_out_once() {
    let mut ws = WsStream::new(&client_frame(OP_CLOSE, &[3, 232], true));
    assert_eq!(ws.send_close(1001), Some(server_frame(OP_CLOSE, &1001u16.to_be_bytes())));
    assert_eq!(ws.send_close(1000), None);
    assert!(matches!(ws.read(9), ReadStep::Eof));

    let mut ws = WsDuplex::new();
    ws.poll_shutdown();
    let once = ws.queued().to_vec();
    assert_eq!(once, server_frame(OP_CLOSE, &1000u16.to_be_bytes()));
    ws.poll_shutdown();
    assert_eq!(ws.queued(), &once[..]);
}

#[test]
fn flushing_reports_what_is_left() {
    let mut ws = WsDuplex::new();
    assert!(ws.poll_write(b"abc"));
    assert!(ws.flush_out(Written::Blocked) == FlushStep::Wait);
    assert!(ws.flush_out(Written::Failed) == FlushStep::Fail);
    assert!(ws.flush_out(Written::Took(0)) == FlushStep::WriteZero);
    assert!(ws.flush_out(Written::Took(2)) == FlushStep::WriteMore);
    assert_eq!(ws.queued(), b"abc");
    assert!(ws.flush_out(Written::Took(3)) == FlushStep::Done);
    assert_eq!(ws.queued(), b"");
}

#[test]
fn prefix_comes_before_the_stream() {
    let mut p = Prefixed::new(vec![1, 2, 3]);
    assert_eq!(p.poll_read(2), Some(vec![1, 2]));
    assert_eq!(p.poll_read(2), Some(vec![3]));
    assert_eq!(p.poll_read(2), None);
}

fn request(lines: &[&str]) -> Vec<u8> {
    let mut text = "GET /chat HTTP/1.1\r\n".to_string();
    for line in lines {
        text.push_str(line);
        text.push_str("\r\n");
    }
    text.push_str("\r\n");
    text.into_bytes()
}

#[test]
fn only_the_headers_that_count_matter() {
    let key = format!("Sec-WebSocket-Key: {KEY}");
    let key_upper = format!("SEC-WEBSOCKET-KEY: {KEY}");
    let plain =
        request(&["Upgrade: websocket", "Connection: Upgrade", "Sec-WebSocket-Version: 13", &key]);
    let dressed = request(&[
        "Host: example.com",
        &key_upper,
        "sec-websocket-version: 13",
        "Origin: null",
        "uPGRADE: websocket",
        "Sec-WebSocket-Protocol: chat",
        "connection: Upgrade",
        "Sec-WebSocket-Extensions: x",
    ]);
    assert_eq!(parse_upgrade(&plain), Ok(KEY.to_string()));
    assert_eq!(parse_upgrade(&dressed), parse_upgrade(&plain));
    let old = request(&["Upgrade: websocket", "Connection: Upgrade", &key]);
    let old_dressed = request(&[&key_upper, "Host: h", "CONNECTION: Upgrade", "UPGRADE: websocket"]);
    assert_eq!(parse_upgrade(&old), Err("426 Upgrade Required"));
    assert_eq!(parse_upgrade(&old_dressed), parse_upgrade(&old));
}

#[test]
fn an_upgrade_is_the_same_however_it_arrives() {
    let key = format!("Sec-WebSocket-Key: {KEY}");
    let mut all =
        request(&["Upgrade: websocket", "Connection: Upgrade", "Sec-WebSocket-Version: 13", &key]);
    let head = all.len();
    all.extend_from_slice(b"behind it");
    let serve = |first: usize, chunk: usize| {
        let mut buf = all[..first].to_vec();
        let mut at = first;
        let mut got = Inbound::Idle;
        loop {
            match accept_upgrade(&mut buf, got, false) {
                UpgradeStep::Read => {}
                UpgradeStep::Accept { response, mut leftover } => {
                    leftover.extend_from_slice(&all[at..]);
                    return (response, leftover);
                }
                _ => panic!("the request is good"),
            }
            let end = all.len().min(at + chunk);
            got = Inbound::Bytes(all[at..end].to_vec());
            at = end;
        }
    };
    let (response, rest) = serve(0, all.len());
    assert_eq!(rest, all[head..]);
    for first in 0..2 {
        for chunk in vec![1, 7, 64, 1024] {
            assert_eq!(serve(first, chunk), (response.clone(), rest.clone()));
        }
    }
}

#[test]
fn reads_give_the_payloads_however_the_bytes_are_cut() {
    let mut wire = client_frame(OP_BIN, b"one", false);
    wire.extend_from_slice(&client_frame(OP_PING, b"p", true));
    wire.extend_from_slice(&client_frame(OP_CONT, b"", false));
    wire.extend_from_slice(&client_frame(OP_CONT, b"two", true));
    wire.extend_from_slice(&client_frame(OP_CLOSE, &1000u16.to_be_bytes(), true));
    wire.extend_from_slice(&client_frame(OP_BIN, b"never", true));
    for cut in 1..wire.len() {
        for max in 1..4 {
            let mut ws = WsStream::new(&wire[..cut % 5]);
            let mut at = cut % 5;
            let mut given = Vec::new();
            loop {
                match ws.read(max) {
                    ReadStep::Bytes(b) => given.extend_from_slice(&b),
                    ReadStep::Eof => break,
                    ReadStep::NeedInput => {
                        let end = wire.len().min(at + cut);
                        ws.feed(&wire[at..end]);
                        at = end;
                    }
                    ReadStep::Reply(_) | ReadStep::Farewell(_) => {}
                }
            }
            assert_eq!(given, b"onetwo");
            assert!(matches!(ws.read(max), ReadStep::Eof));
        }
    }
}

#[test]
fn a_bad_header_and_a_second_close_leave_things_alone() {
    let mut p = Polled::new(&[]);
    p.ws.poll_shutdown();
    p.flush();
    let closed = p.output.len();
    // Without a mask.
    p.ws.feed(&[0x82, 0x01, 0x00]);
    assert!(p.read(8).is_empty());
    assert_eq!(p.output.len(), closed);
}

#[test]
fn frames_are_parsed_one_by_one() {
    let mut ws = WsDuplex::new();
    assert!(matches!(ws.parse_one(), Parsing::Need));
    let mut wire = client_frame(OP_PING, b"p", true);
    wire.extend_from_slice(&client_frame(OP_BIN, b"x", true));
    wire.extend_from_slice(&client_frame(OP_TEXT, b"t", true));
    wire.extend_from_slice(&client_frame(OP_CLOSE, b"", true));
    ws.feed(&wire);
    assert!(matches!(ws.parse_one(), Parsing::Control));
    let pong = server_frame(OP_PONG, b"p");
    assert_eq!(ws.queued(), &pong[..]);
    match ws.parse_one() {
        Parsing::Payload(p) => assert_eq!(p, b"x"),
        _ => panic!("a binary frame"),
    }
    assert_eq!(ws.queued(), &pong[..]);
    assert!(matches!(ws.parse_one(), Parsing::Error));
    let mut out = pong;
    out.extend_from_slice(&server_frame(OP_CLOSE, &1003u16.to_be_bytes()));
    assert_eq!(ws.queued(), &out[..]);
    // No second close.
    assert!(matches!(ws.parse_one(), Parsing::Eof));
    assert_eq!(ws.queued(), &out[..]);
}
