//! Serving the HTTP upgrade: what to read, what to answer, when to give up.

use vstd::prelude::*;
use vstd::utf8::{
    decode_utf8, encode_utf8, is_ascii_chars, is_ascii_chars_encode_utf8, valid_utf8,
};
use crate::inbound::{arrived, Inbound};
use crate::text::{
    chars_of, find, find_from, lemma_find_bound, lemma_find_from, split, split_once, stands_at,
    starts_with, trim_end, trim_start,
};
use crate::ws::base64::{decoded, unpadded, value};
use crate::ws::sha1::MAX_LEN;
use crate::ws::upgrade::{
    accept_key, accept_value, header, parse_upgrade, parse_upgrade_lossy, request_lines,
    request_verdict, text_verdict, utf8_lossy, Verdict, BAD_REQUEST, MAX_REQUEST_BYTES,
    UPGRADE_REQUIRED, WS_GUID,
};

verus! {

// Replies --------------------------------------------------------------------

/// The reply that grants an upgrade to `key`.
pub open spec fn success_reply(key: Seq<char>) -> Seq<u8> {
    encode_utf8(
        "HTTP/1.1 101 Switching Protocols\r\nUpgrade: websocket\r\nConnection: Upgrade\r\nSec-WebSocket-Accept: "@,
    ) + encode_utf8(accept_value(key)) + encode_utf8("\r\n\r\n"@)
}

/// The reply that refuses an upgrade. A refusal for the version names the one supported.
pub open spec fn error_reply(status: Seq<char>) -> Seq<u8> {
    encode_utf8("HTTP/1.1 "@) + encode_utf8(status) + if "426"@.is_prefix_of(status) {
        encode_utf8("\r\nSec-WebSocket-Version: 13\r\n\r\n"@)
    } else {
        encode_utf8("\r\n\r\n"@)
    }
}

/// The reply that grants an upgrade to `key`.
pub fn success_response(key: &str) -> (r: Vec<u8>)
    requires
        encode_utf8(key@).len() + encode_utf8(WS_GUID@).len() < MAX_LEN,
    ensures
        r@ == success_reply(key@),
{
    let mut out: Vec<u8> = Vec::new();
    out.extend_from_slice(
        "HTTP/1.1 101 Switching Protocols\r\nUpgrade: websocket\r\nConnection: Upgrade\r\nSec-WebSocket-Accept: ".as_bytes(),
    );
    let accept: String = accept_key(key);
    out.extend_from_slice(accept.as_str().as_bytes());
    out.extend_from_slice("\r\n\r\n".as_bytes());
    assert(out@ =~= success_reply(key@));
    out
}

/// The reply that refuses an upgrade with `status`.
pub fn error_response(status: &str) -> (r: Vec<u8>)
    ensures
        r@ == error_reply(status@),
{
    let mut out: Vec<u8> = Vec::new();
    out.extend_from_slice("HTTP/1.1 ".as_bytes());
    out.extend_from_slice(status.as_bytes());
    let chars: Vec<char> = chars_of(status);
    if starts_with(chars.as_slice(), "426") {
        out.extend_from_slice("\r\nSec-WebSocket-Version: 13\r\n\r\n".as_bytes());
    } else {
        out.extend_from_slice("\r\n\r\n".as_bytes());
    }
    assert(out@ =~= error_reply(status@));
    out
}

// Bounds ---------------------------------------------------------------------

proof fn lemma_trim_end_len(s: Seq<char>)
    ensures
        trim_end(s).len() <= s.len(),
    decreases s.len(),
{
    if s.len() > 0 {
        lemma_trim_end_len(s.drop_last());
    }
}

proof fn lemma_trim_start_len(s: Seq<char>)
    ensures
        trim_start(s).len() <= s.len(),
    decreases s.len(),
{
    if s.len() > 0 {
        lemma_trim_start_len(s.skip(1));
    }
}

proof fn lemma_split_len(s: Seq<char>, sep: Seq<char>)
    ensures
        forall|i: int|
            0 <= i < split(s, sep).len() ==> (#[trigger] split(s, sep)[i]).len() <= s.len(),
        split(s, sep).len() > 0,
    decreases s.len(),
{
    lemma_find_bound(s, sep, 0);
    if sep.len() > 0 && find(s, sep) is Some {
        let at = find(s, sep)->0;
        let rest = s.skip((at + sep.len()) as int);
        lemma_split_len(rest, sep);
        assert forall|i: int| 0 <= i < split(s, sep).len() implies (#[trigger] split(s, sep)[i]).len()
            <= s.len() by {
            if i > 0 {
                assert(split(s, sep)[i] == split(rest, sep)[i - 1]);
            }
        }
    }
}

proof fn lemma_header_len(lines: Seq<Seq<char>>, name: Seq<char>, n: nat)
    requires
        forall|i: int| 0 <= i < lines.len() ==> (#[trigger] lines[i]).len() <= n,
    ensures
        header(lines, name) matches Some(v) ==> v.len() <= n,
    decreases lines.len(),
{
    if lines.len() > 0 {
        let line = lines.last();
        lemma_find_bound(line, seq![':'], 0);
        if let Some((a, b)) = split_once(line, ':') {
            lemma_trim_start_len(b);
            lemma_trim_end_len(trim_start(b));
        }
        assert forall|i: int| 0 <= i < lines.drop_last().len() implies (
        #[trigger] lines.drop_last()[i]).len() <= n by {
            assert(lines.drop_last()[i] == lines[i]);
        }
        lemma_header_len(lines.drop_last(), name, n);
    }
}

/// A text that decodes as base64 is ASCII.
proof fn lemma_decoded_ascii(s: Seq<char>)
    requires
        decoded(s) is Some,
    ensures
        is_ascii_chars(s),
    decreases s.len(),
{
    if s.len() > 0 && s.last() == '=' {
        lemma_decoded_ascii(s.drop_last());
        assert forall|i: int| 0 <= i < s.len() implies '\0' <= #[trigger] s[i] <= '\u{7f}' by {
            if i < s.len() - 1 {
                assert(s.drop_last()[i] == s[i]);
            }
        }
    } else {
        assert(unpadded(s) == s);
        assert forall|i: int| 0 <= i < s.len() implies '\0' <= #[trigger] s[i] <= '\u{7f}' by {
            assert(value(s[i]) is Some);
        }
    }
}

/// A granted key is no longer in bytes than the request is in characters.
proof fn lemma_key_len(text: Seq<char>, exact: bool)
    ensures
        text_verdict(text, exact) matches Verdict::Granted(key) ==> encode_utf8(key).len()
            <= text.len(),
{
    if text_verdict(text, exact) is Granted {
        let lines = request_lines(text);
        let rest = lines.skip(1);
        lemma_split_len(text, seq!['\r', '\n']);
        assert forall|i: int| 0 <= i < rest.len() implies (#[trigger] rest[i]).len()
            <= text.len() by {
            assert(rest[i] == lines[i + 1]);
        }
        lemma_header_len(rest, "sec-websocket-key"@, text.len());
        let key = header(rest, "sec-websocket-key"@)->0;
        lemma_decoded_ascii(key);
        is_ascii_chars_encode_utf8(key);
    }
}

/// Bytes encode no more characters than there are bytes.
proof fn lemma_decode_len(bytes: Seq<u8>)
    requires
        valid_utf8(bytes),
    ensures
        decode_utf8(bytes).len() <= bytes.len(),
    decreases bytes.len(),
{
    if bytes.len() > 0 {
        let rest = vstd::utf8::pop_first_scalar(bytes);
        assert(rest.len() < bytes.len());
        lemma_decode_len(rest);
    }
}

proof fn lemma_guid_len()
    ensures
        encode_utf8(WS_GUID@).len() == 36,
{
    reveal_strlit("258EAFA5-E914-47DA-95CA-C5AB0DC85B11");
    assert(is_ascii_chars(WS_GUID@));
    is_ascii_chars_encode_utf8(WS_GUID@);
}

// The upgrade of a buffered request ------------------------------------------

/// The blank line that ends a request.
pub open spec fn blank_line() -> Seq<u8> {
    seq![13u8, 10u8, 13u8, 10u8]
}

/// Where `needle` first stands in `haystack`; an empty needle stands nowhere.
pub fn find_subsequence(haystack: &[u8], needle: &[u8]) -> (r: Option<usize>)
    ensures
        match r {
            Some(at) => needle@.len() > 0 && find(haystack@, needle@) == Some(at as nat) && at
                + needle@.len() <= haystack@.len(),
            None => needle@.len() == 0 || find(haystack@, needle@) is None,
        },
{
    let n: usize = needle.len();
    let len: usize = haystack.len();
    if n == 0 || len < n {
        return None;
    }
    let mut i: usize = 0;
    while i <= len - n
        invariant
            0 < n <= len,
            n == needle@.len(),
            len == haystack@.len(),
            i <= len - n + 1,
            find(haystack@, needle@) == find_from(haystack@, needle@, i as nat),
        decreases len - n + 1 - i,
    {
        let mut k: usize = 0;
        let ghost window = haystack@.subrange(i as int, i + n);
        while k < n && haystack[i + k] == needle[k]
            invariant
                k <= n,
                i + n <= len,
                n == needle@.len(),
                len == haystack@.len(),
                len <= usize::MAX,
                window == haystack@.subrange(i as int, i + n),
                forall|j: int| 0 <= j < k ==> window[j] == needle@[j],
            decreases n - k,
        {
            k = k + 1;
        }
        if k == n {
            assert(window =~= needle@);
            return Some(i);
        }
        assert(window[k as int] != needle@[k as int]);
        i = i + 1;
    }
    None
}

/// The next thing to do about a request.
pub enum UpgradeStep {
    /// Read more of it.
    Read,
    /// Close the connection.
    Close,
    /// Report the failed read.
    Fail,
    /// Send this reply, whether or not that succeeds, and close.
    Reject(Vec<u8>),
    /// Send this reply and go on as a WebSocket, `leftover` being its first bytes.
    Accept { response: Vec<u8>, leftover: Vec<u8> },
}

/// `r` is what to do once `buf` has arrived and the deadline has passed if `expired`.
pub open spec fn upgrade_step(buf: Seq<u8>, expired: bool, r: UpgradeStep) -> bool {
    match find(buf, blank_line()) {
        Some(at) => match request_verdict(buf.take(at as int + 4)) {
            Verdict::Granted(key) => r matches UpgradeStep::Accept { response, leftover }
                && response@ == success_reply(key) && leftover@ == buf.skip(at as int + 4),
            Verdict::BadRequest => r matches UpgradeStep::Reject(reply) && reply@ == error_reply(
                BAD_REQUEST@,
            ),
            Verdict::UpgradeRequired => r matches UpgradeStep::Reject(reply) && reply@
                == error_reply(UPGRADE_REQUIRED@),
        },
        None => if buf.len() > MAX_REQUEST_BYTES {
            r matches UpgradeStep::Reject(reply) && reply@ == error_reply(BAD_REQUEST@)
        } else if expired {
            r is Close
        } else {
            r is Read
        },
    }
}

/// Serves an upgrade request of which `buf` has been read: takes in what the last read
/// brought (nothing, before the first), and says what to do next.
pub fn accept_upgrade(buf: &mut Vec<u8>, got: Inbound, expired: bool) -> (r: UpgradeStep)
    requires
        old(buf)@.len() + arrived(got).len() + 36 < MAX_LEN,
    ensures
        final(buf)@ == old(buf)@ + arrived(got),
        match got {
            Inbound::Closed => r is Close,
            Inbound::Failed => r is Fail,
            _ => upgrade_step(final(buf)@, expired, r),
        },
{
    match got {
        Inbound::Closed => {
            assert(buf@ =~= old(buf)@ + arrived(got));
            return UpgradeStep::Close;
        },
        Inbound::Failed => {
            assert(buf@ =~= old(buf)@ + arrived(got));
            return UpgradeStep::Fail;
        },
        Inbound::Idle => {
            assert(buf@ =~= old(buf)@ + arrived(got));
        },
        Inbound::Bytes(b) => {
            buf.extend_from_slice(b.as_slice());
            assert(buf@ =~= old(buf)@ + b@);
        },
    }
    let needle: [u8; 4] = [13, 10, 13, 10];
    assert(needle@ =~= blank_line());
    match find_subsequence(buf.as_slice(), needle.as_slice()) {
        None => {
            if buf.len() > MAX_REQUEST_BYTES {
                UpgradeStep::Reject(error_response(BAD_REQUEST))
            } else if expired {
                UpgradeStep::Close
            } else {
                UpgradeStep::Read
            }
        },
        Some(at) => {
            let total: usize = buf.len();
            let request: &[u8] = vstd::slice::slice_subrange(buf.as_slice(), 0, at + 4);
            let rest: &[u8] = vstd::slice::slice_subrange(buf.as_slice(), at + 4, total);
            assert(request@ =~= buf@.take(at + 4));
            assert(rest@ =~= buf@.skip(at + 4));
            match parse_upgrade(request) {
                Ok(key) => {
                    proof {
                        lemma_decode_len(request@);
                        lemma_key_len(decode_utf8(request@), false);
                        lemma_guid_len();
                    }
                    let mut leftover: Vec<u8> = Vec::new();
                    leftover.extend_from_slice(rest);
                    assert(leftover@ =~= rest@);
                    UpgradeStep::Accept { response: success_response(key.as_str()), leftover }
                },
                Err(status) => UpgradeStep::Reject(error_response(status)),
            }
        },
    }
}

/// How a request arrives does not matter. While its blank line has not arrived, more is read;
/// once it has, the whole request is judged, and what arrived behind it together with what is
/// still to come is what follows it. The request has to be within the size allowed and in
/// time.
pub proof fn lemma_upgrade_any_cut(arrived: Seq<u8>, later: Seq<u8>, at: nat, r: UpgradeStep)
    requires
        find(arrived + later, blank_line()) == Some(at),
        at + 4 <= MAX_REQUEST_BYTES,
        upgrade_step(arrived, false, r),
    ensures
        r is Read <==> arrived.len() < at + 4,
        !(r is Read) ==> match request_verdict((arrived + later).take(at as int + 4)) {
            Verdict::Granted(key) => r matches UpgradeStep::Accept { response, leftover }
                && response@ == success_reply(key) && leftover@ + later == (arrived + later).skip(
                at as int + 4,
            ),
            Verdict::BadRequest => r matches UpgradeStep::Reject(reply) && reply@ == error_reply(
                BAD_REQUEST@,
            ),
            Verdict::UpgradeRequired => r matches UpgradeStep::Reject(reply) && reply@
                == error_reply(UPGRADE_REQUIRED@),
        },
{
    let all = arrived + later;
    let blank = blank_line();
    lemma_find_from(all, blank, 0);
    lemma_find_from(arrived, blank, 0);
    assert forall|j: int| 0 <= j && j + 4 <= arrived.len() implies stands_at(all, blank, j)
        == #[trigger] stands_at(arrived, blank, j) by {
        assert(all.subrange(j, j + 4) =~= arrived.subrange(j, j + 4));
    }
    if arrived.len() < at + 4 {
        if let Some(i) = find(arrived, blank) {
            assert(stands_at(arrived, blank, i as int));
            assert(stands_at(all, blank, i as int));
        }
    } else {
        assert(stands_at(arrived, blank, at as int));
        let i = find(arrived, blank)->0;
        assert(stands_at(arrived, blank, i as int));
        assert(stands_at(all, blank, i as int));
        assert(i == at);
        assert(arrived.take(at as int + 4) =~= all.take(at as int + 4));
        assert(arrived.skip(at as int + 4) + later =~= all.skip(at as int + 4));
    }
}

/// Two ways in which the same bytes arrive, such as with the first of them read beforehand
/// and handed in, lead to the same reply, and to the same bytes for the WebSocket behind it.
pub proof fn lemma_upgrade_cuts_agree(
    arrived: Seq<u8>,
    later: Seq<u8>,
    r: UpgradeStep,
    arrived2: Seq<u8>,
    later2: Seq<u8>,
    r2: UpgradeStep,
    at: nat,
)
    requires
        arrived + later == arrived2 + later2,
        find(arrived + later, blank_line()) == Some(at),
        at + 4 <= MAX_REQUEST_BYTES,
        upgrade_step(arrived, false, r),
        upgrade_step(arrived2, false, r2),
        !(r is Read),
        !(r2 is Read),
    ensures
        match r {
            UpgradeStep::Accept { response, leftover } => r2 matches UpgradeStep::Accept {
                response: response2,
                leftover: leftover2,
            } && response2@ == response@ && leftover2@ + later2 == leftover@ + later,
            UpgradeStep::Reject(reply) => r2 matches UpgradeStep::Reject(reply2) && reply2@
                == reply@,
            _ => false,
        },
{
    lemma_upgrade_any_cut(arrived, later, at, r);
    lemma_upgrade_any_cut(arrived2, later2, at, r2);
}

// Sniffing -------------------------------------------------------------------

/// How to go on with an accepted connection.
#[derive(Clone, Copy, PartialEq, Eq, Structural)]
pub enum Route {
    /// It speaks the bare protocol.
    Raw,
    /// It asks for a WebSocket.
    WebSocket,
    /// It is neither, or brought nothing: close it.
    Close,
}

/// The route for a connection's first byte: zero starts a length prefix, `G` a `GET`.
pub open spec fn route(first: Option<u8>) -> Route {
    match first {
        Some(b) => if b == 0 {
            Route::Raw
        } else if b == 71 {
            Route::WebSocket
        } else {
            Route::Close
        },
        None => Route::Close,
    }
}

/// The route for a connection's first byte.
pub fn route_first_byte(first: Option<u8>) -> (r: Route)
    ensures
        r == route(first),
{
    match first {
        Some(0x00) => Route::Raw,
        Some(0x47) => Route::WebSocket,
        _ => Route::Close,
    }
}

/// The next thing to do about a connection that is being sniffed.
pub enum SniffStep {
    /// Read one more byte.
    ReadByte,
    /// Close the connection.
    Close,
    /// Go on with the bare protocol, whose first bytes these are.
    Raw(Vec<u8>),
    /// Send this reply, whether or not that succeeds, and close.
    Reject(Vec<u8>),
    /// Send this reply and go on as a WebSocket.
    Accept(Vec<u8>),
}

/// `r` is what to do once the bytes `request` of a `GET` have arrived.
pub open spec fn sniff_step(request: Seq<u8>, r: SniffStep) -> bool {
    if blank_line().is_suffix_of(request) {
        match text_verdict(utf8_lossy(request), true) {
            Verdict::Granted(key) => r matches SniffStep::Accept(reply) && reply@ == success_reply(
                key,
            ),
            Verdict::BadRequest => r matches SniffStep::Reject(reply) && reply@ == error_reply(
                BAD_REQUEST@,
            ),
            Verdict::UpgradeRequired => r matches SniffStep::Reject(reply) && reply@
                == error_reply(UPGRADE_REQUIRED@),
        }
    } else if request.len() > MAX_REQUEST_BYTES {
        r matches SniffStep::Reject(reply) && reply@ == error_reply(BAD_REQUEST@)
    } else {
        r is ReadByte
    }
}

/// Sniffs a connection byte by byte, so that nothing behind the blank line is consumed:
/// `request` holds the bytes of a `GET` read so far, and `byte` is the next one, or `None`
/// if the read failed or the peer closed.
pub fn sniff_and_wrap(request: &mut Vec<u8>, byte: Option<u8>) -> (r: SniffStep)
    requires
        old(request)@.len() + 37 < MAX_LEN,
    ensures
        match byte {
            None => r is Close && final(request)@ == old(request)@,
            Some(b) => if old(request)@.len() > 0 {
                final(request)@ == old(request)@.push(b) && sniff_step(final(request)@, r)
            } else {
                match route(byte) {
                    Route::Raw => (r matches SniffStep::Raw(prefix) && prefix@ == seq![b])
                        && final(request)@ == old(request)@,
                    Route::WebSocket => r is ReadByte && final(request)@ == seq![b],
                    Route::Close => r is Close && final(request)@ == old(request)@,
                }
            },
        },
{
    match byte {
        None => SniffStep::Close,
        Some(b) => {
            if request.len() == 0 {
                return match route_first_byte(Some(b)) {
                    Route::Raw => {
                        let mut prefix: Vec<u8> = Vec::new();
                        prefix.push(b);
                        assert(prefix@ =~= seq![b]);
                        SniffStep::Raw(prefix)
                    },
                    Route::WebSocket => {
                        request.push(b);
                        assert(request@ =~= seq![b]);
                        SniffStep::ReadByte
                    },
                    Route::Close => SniffStep::Close,
                };
            }
            request.push(b);
            if ends_blank(request.as_slice()) {
                let parsed: Result<String, &'static str> = parse_upgrade_lossy(request.as_slice());
                match parsed {
                    Ok(key) => {
                        proof {
                            lemma_key_len(utf8_lossy(request@), true);
                            lemma_guid_len();
                        }
                        SniffStep::Accept(success_response(key.as_str()))
                    },
                    Err(status) => SniffStep::Reject(error_response(status)),
                }
            } else if request.len() > MAX_REQUEST_BYTES {
                SniffStep::Reject(error_response(BAD_REQUEST))
            } else {
                SniffStep::ReadByte
            }
        },
    }
}

/// Whether `request` ends in a blank line.
fn ends_blank(request: &[u8]) -> (r: bool)
    ensures
        r == blank_line().is_suffix_of(request@),
{
    let n: usize = request.len();
    if n < 4 {
        return false;
    }
    let r: bool = request[n - 4] == 13 && request[n - 3] == 10 && request[n - 2] == 13 && request[n
        - 1] == 10;
    proof {
        let tail = request@.subrange(n - 4, n as int);
        if r {
            assert(tail =~= blank_line());
        } else {
            assert(tail[0] == request@[n - 4]);
            assert(tail[1] == request@[n - 3]);
            assert(tail[2] == request@[n - 2]);
            assert(tail[3] == request@[n - 1]);
        }
    }
    r
}

/// A refusal is the status line and a blank line; that for the version says, in between, which
/// version is spoken.
pub proof fn lemma_refusals()
    ensures
        error_reply(BAD_REQUEST@) == encode_utf8("HTTP/1.1 400 Bad Request\r\n\r\n"@),
        error_reply(UPGRADE_REQUIRED@) == encode_utf8(
            "HTTP/1.1 426 Upgrade Required\r\nSec-WebSocket-Version: 13\r\n\r\n"@,
        ),
{
    reveal_strlit("HTTP/1.1 ");
    reveal_strlit("400 Bad Request");
    reveal_strlit("426 Upgrade Required");
    reveal_strlit("426");
    reveal_strlit("\r\n\r\n");
    reveal_strlit("\r\nSec-WebSocket-Version: 13\r\n\r\n");
    reveal_strlit("HTTP/1.1 400 Bad Request\r\n\r\n");
    reveal_strlit("HTTP/1.1 426 Upgrade Required\r\nSec-WebSocket-Version: 13\r\n\r\n");
    let start = "HTTP/1.1 "@;
    let end = "\r\n\r\n"@;
    let named = "\r\nSec-WebSocket-Version: 13\r\n\r\n"@;
    lemma_ascii_join(start, BAD_REQUEST@, end);
    lemma_ascii_join(start, UPGRADE_REQUIRED@, named);
    assert(start + BAD_REQUEST@ + end =~= "HTTP/1.1 400 Bad Request\r\n\r\n"@);
    assert(start + UPGRADE_REQUIRED@ + named
        =~= "HTTP/1.1 426 Upgrade Required\r\nSec-WebSocket-Version: 13\r\n\r\n"@);
    assert(BAD_REQUEST@[1] == '0');
    assert(!"426"@.is_prefix_of(BAD_REQUEST@)) by {
        if "426"@.is_prefix_of(BAD_REQUEST@) {
            assert("426"@[1] == BAD_REQUEST@[1]);
        }
    }
    assert("426"@ =~= UPGRADE_REQUIRED@.take(3));
}

proof fn lemma_ascii_join(a: Seq<char>, b: Seq<char>, c: Seq<char>)
    requires
        is_ascii_chars(a),
        is_ascii_chars(b),
        is_ascii_chars(c),
    ensures
        encode_utf8(a + b + c) == encode_utf8(a) + encode_utf8(b) + encode_utf8(c),
{
    let all = a + b + c;
    assert(is_ascii_chars(all));
    is_ascii_chars_encode_utf8(a);
    is_ascii_chars_encode_utf8(b);
    is_ascii_chars_encode_utf8(c);
    is_ascii_chars_encode_utf8(all);
    let parts = encode_utf8(a) + encode_utf8(b) + encode_utf8(c);
    assert forall|i: int| 0 <= i < all.len() implies encode_utf8(all)[i] == #[trigger] parts[i] by {
        assert(all[i] as u8 == encode_utf8(all)[i]);
        if i < a.len() {
            assert(all[i] == a[i]);
        } else if i < a.len() + b.len() {
            assert(all[i] == b[i - a.len()]);
        } else {
            assert(all[i] == c[i - a.len() - b.len()]);
        }
    }
    assert(encode_utf8(all) =~= parts);
}

/// A connection is a bare one if its first byte is zero, a WebSocket if it is a `G`, and is
/// closed otherwise.
pub proof fn lemma_routes(first: u8)
    ensures
        route(None) == Route::Close,
        route(Some(first)) == Route::Raw <==> first == 0,
        route(Some(first)) == Route::WebSocket <==> first == 'G' as u8,
{
}

/// A request ends with its first blank line; whatever comes behind that belongs to the
/// WebSocket. It is answered by what its own bytes say, be they as many as they are and be
/// it as late as it is.
pub proof fn lemma_upgrade_answers(head: Seq<u8>, rest: Seq<u8>, expired: bool, r: UpgradeStep)
    requires
        head.len() >= 4,
        head.skip(head.len() - 4) == seq![13u8, 10u8, 13u8, 10u8],
        forall|j: int|
            0 <= j < head.len() - 4 ==> #[trigger] head.subrange(j, j + 4) != seq![
                13u8,
                10u8,
                13u8,
                10u8,
            ],
        upgrade_step(head + rest, expired, r),
    ensures
        match request_verdict(head) {
            Verdict::Granted(key) => r matches UpgradeStep::Accept { response, leftover }
                && response@ == success_reply(key) && leftover@ == rest,
            Verdict::BadRequest => r matches UpgradeStep::Reject(reply) && reply@ == encode_utf8(
                "HTTP/1.1 400 Bad Request\r\n\r\n"@,
            ),
            Verdict::UpgradeRequired => r matches UpgradeStep::Reject(reply) && reply@
                == encode_utf8(
                "HTTP/1.1 426 Upgrade Required\r\nSec-WebSocket-Version: 13\r\n\r\n"@,
            ),
        },
{
    let buf = head + rest;
    let blank = seq![13u8, 10u8, 13u8, 10u8];
    let at = head.len() - 4;
    assert(blank_line() =~= blank);
    lemma_find_from(buf, blank, 0);
    assert(buf.subrange(at, at + 4) =~= head.skip(at));
    assert(stands_at(buf, blank, at));
    let found = find(buf, blank)->0;
    if found < at {
        assert(buf.subrange(found as int, found as int + 4) =~= head.subrange(found as int, found as int + 4));
    }
    assert(found == at);
    assert(buf.take(at + 4) =~= head);
    assert(buf.skip(at + 4) =~= rest);
    lemma_refusals();
}

/// A request without its blank line is read on, until it is too long, which is answered, or
/// too late, which is not.
pub proof fn lemma_upgrade_waits(buf: Seq<u8>, expired: bool, r: UpgradeStep)
    requires
        forall|j: int|
            0 <= j <= buf.len() - 4 ==> #[trigger] buf.subrange(j, j + 4) != seq![
                13u8,
                10u8,
                13u8,
                10u8,
            ],
        upgrade_step(buf, expired, r),
    ensures
        buf.len() > 8192 <==> r is Reject,
        r matches UpgradeStep::Reject(reply) ==> reply@ == encode_utf8(
            "HTTP/1.1 400 Bad Request\r\n\r\n"@,
        ),
        r is Close <==> buf.len() <= 8192 && expired,
        r is Read <==> buf.len() <= 8192 && !expired,
{
    let blank = seq![13u8, 10u8, 13u8, 10u8];
    assert(blank_line() =~= blank);
    lemma_find_from(buf, blank, 0);
    if let Some(at) = find(buf, blank) {
        assert(buf.subrange(at as int, at as int + 4) == blank);
    }
    lemma_refusals();
}

/// A request that is read byte by byte is answered once it ends with a blank line, by what it
/// says; one that is too long is refused; any other is read on.
pub proof fn lemma_sniff_answers(request: Seq<u8>, r: SniffStep)
    requires
        sniff_step(request, r),
    ensures
        ({
            let whole = request.len() >= 4 && request.skip(request.len() - 4) == seq![
                13u8,
                10u8,
                13u8,
                10u8,
            ];
            let verdict = text_verdict(utf8_lossy(request), true);
            &&& r is ReadByte <==> !whole && request.len() <= 8192
            &&& !whole && request.len() > 8192 ==> (r matches SniffStep::Reject(reply) && reply@
                == encode_utf8("HTTP/1.1 400 Bad Request\r\n\r\n"@))
            &&& whole ==> match verdict {
                Verdict::Granted(key) => r matches SniffStep::Accept(reply) && reply@
                    == success_reply(key),
                Verdict::BadRequest => r matches SniffStep::Reject(reply) && reply@ == encode_utf8(
                    "HTTP/1.1 400 Bad Request\r\n\r\n"@,
                ),
                Verdict::UpgradeRequired => r matches SniffStep::Reject(reply) && reply@
                    == encode_utf8(
                    "HTTP/1.1 426 Upgrade Required\r\nSec-WebSocket-Version: 13\r\n\r\n"@,
                ),
            }
        }),
{
    let blank = seq![13u8, 10u8, 13u8, 10u8];
    assert(blank_line() =~= blank);
    if request.len() >= 4 {
        assert(request.skip(request.len() - 4) =~= request.subrange(
            request.len() - 4,
            request.len() as int,
        ));
    }
    lemma_refusals();
}

/// A grant names the protocol and carries the answer to the key, in its own line, and ends
/// with a blank line.
pub proof fn lemma_grant_is(key: Seq<char>)
    ensures
        ({
            let start = encode_utf8(
                "HTTP/1.1 101 Switching Protocols\r\nUpgrade: websocket\r\nConnection: Upgrade\r\nSec-WebSocket-Accept: "@,
            );
            let reply = success_reply(key);
            let accept = encode_utf8(accept_value(key));
            &&& reply.take(start.len() as int) == start
            &&& reply.skip(start.len() as int) == accept + seq![13u8, 10u8, 13u8, 10u8]
        }),
{
    let start = encode_utf8(
        "HTTP/1.1 101 Switching Protocols\r\nUpgrade: websocket\r\nConnection: Upgrade\r\nSec-WebSocket-Accept: "@,
    );
    let reply = success_reply(key);
    reveal_strlit("\r\n\r\n");
    let end = "\r\n\r\n"@;
    assert(is_ascii_chars(end));
    is_ascii_chars_encode_utf8(end);
    assert(end[0] == '\r' && end[1] == '\n' && end[2] == '\r' && end[3] == '\n');
    assert(encode_utf8(end) =~= seq![13u8, 10u8, 13u8, 10u8]);
    assert(reply.take(start.len() as int) =~= start);
    assert(reply.skip(start.len() as int) =~= encode_utf8(accept_value(key)) + encode_utf8(end));
}

} // verus!
