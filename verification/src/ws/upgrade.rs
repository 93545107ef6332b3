//! The HTTP upgrade that turns a connection into a WebSocket.

use vstd::prelude::*;
use vstd::utf8::{decode_utf8, encode_utf8, valid_utf8};
use crate::text::{
    chars_of, find_char, is_space, lemma_find_bound, lemma_split_once_is, lowercase, lowercased,
    part, same_str, split, split_char, split_lines, split_once, starts_with, string_of, trim,
    trim_end, trim_start, trimmed, views,
};
use crate::ws::base64::{base64_encode, decode_chars, decoded, encoded};
use crate::ws::sha1::{digest, sha1, Sha1, MAX_LEN};

verus! {

/// The identifier that RFC 6455 appends to the client's key.
pub const WS_GUID: &'static str = "258EAFA5-E914-47DA-95CA-C5AB0DC85B11";

/// The most bytes that a request may take before its blank line.
pub const MAX_REQUEST_BYTES: usize = 8192;

pub const BAD_REQUEST: &'static str = "400 Bad Request";

pub const UPGRADE_REQUIRED: &'static str = "426 Upgrade Required";

#[verifier::external_type_specification]
#[verifier::external_body]
pub struct ExUtf8Error(std::str::Utf8Error);

/// `std::str::from_utf8`: the text that the bytes encode, if they are valid UTF-8, and an
/// error if and only if they are not.
pub assume_specification [std::str::from_utf8](v: &[u8]) -> (r: Result<&str, std::str::Utf8Error>)
    ensures
        match r {
            Ok(s) => valid_utf8(v@) && s@ == decode_utf8(v@),
            Err(_) => !valid_utf8(v@),
        },
;

/// What `String::from_utf8_lossy` makes of some bytes.
pub uninterp spec fn utf8_lossy(data: Seq<u8>) -> Seq<char>;

/// `String::from_utf8_lossy`: the text of the bytes, with a replacement character for what
/// is not UTF-8; where all of it is UTF-8, the text that they encode. Each character
/// stands for at least one byte.
#[verifier::external_body]
pub(crate) fn text_lossy(data: &[u8]) -> (r: String)
    ensures
        r@ == utf8_lossy(data@),
        valid_utf8(data@) ==> r@ == decode_utf8(data@),
        r@.len() <= data@.len(),
{
    String::from_utf8_lossy(data).into_owned()
}

// The key --------------------------------------------------------------------

/// The `Sec-WebSocket-Accept` value for a `Sec-WebSocket-Key`: the base64 of the SHA-1 of
/// the key and the identifier.
pub open spec fn accept_value(key: Seq<char>) -> Seq<char> {
    encoded(digest(encode_utf8(key) + encode_utf8(WS_GUID@)))
}

/// The `Sec-WebSocket-Accept` value for `key`.
pub fn accept_key(key: &str) -> (r: String)
    requires
        encode_utf8(key@).len() + encode_utf8(WS_GUID@).len() < MAX_LEN,
    ensures
        r@ == accept_value(key@),
{
    let mut hasher = Sha1::new();
    hasher.update(key.as_bytes());
    hasher.update(WS_GUID.as_bytes());
    assert(hasher@ =~= encode_utf8(key@) + encode_utf8(WS_GUID@));
    let d: [u8; 20] = hasher.finish();
    base64_encode(d.as_slice())
}

/// The `Sec-WebSocket-Accept` value for `key`, from the digest of one buffer.
pub fn compute_accept(key: &str) -> (r: String)
    requires
        encode_utf8(key@).len() + encode_utf8(WS_GUID@).len() < MAX_LEN,
        encode_utf8(key@).len() + encode_utf8(WS_GUID@).len() + 72 <= usize::MAX,
    ensures
        r@ == accept_value(key@),
{
    let mut input: Vec<u8> = Vec::new();
    input.extend_from_slice(key.as_bytes());
    input.extend_from_slice(WS_GUID.as_bytes());
    assert(input@ =~= encode_utf8(key@) + encode_utf8(WS_GUID@));
    let d: [u8; 20] = sha1(input.as_slice());
    base64_encode(d.as_slice())
}

// The request ----------------------------------------------------------------

/// The name of a header line, in lower case.
pub open spec fn header_name(line: Seq<char>) -> Seq<char> {
    match split_once(line, ':') {
        Some((name, value)) => lowercase(trim(name)),
        None => Seq::empty(),
    }
}

/// The value of a header line.
pub open spec fn header_value(line: Seq<char>) -> Seq<char> {
    match split_once(line, ':') {
        Some((name, value)) => trim(value),
        None => Seq::empty(),
    }
}

/// A line is a header if it has a colon; an empty line is passed over.
pub open spec fn headers_ok(lines: Seq<Seq<char>>) -> bool {
    forall|i: int|
        0 <= i < lines.len() ==> (#[trigger] lines[i]).len() == 0 || split_once(
            lines[i],
            ':',
        ) is Some
}

/// The value of the last header called `name`.
pub open spec fn header(lines: Seq<Seq<char>>, name: Seq<char>) -> Option<Seq<char>>
    decreases lines.len(),
{
    if lines.len() == 0 {
        None
    } else if lines.last().len() > 0 && header_name(lines.last()) == name {
        Some(header_value(lines.last()))
    } else {
        header(lines.drop_last(), name)
    }
}

/// One of the comma-separated tokens of `value` is `token`.
pub open spec fn has_token(value: Seq<char>, token: Seq<char>) -> bool {
    exists|i: int|
        0 <= i < split(value, seq![',']).len() && trim(#[trigger] split(value, seq![','])[i])
            == token
}

/// What becomes of a request.
pub enum Verdict {
    /// The upgrade is granted to this key.
    Granted(Seq<char>),
    BadRequest,
    UpgradeRequired,
}

/// The verdict on a request's header lines.
pub open spec fn headers_verdict(lines: Seq<Seq<char>>) -> Verdict {
    let upgrade = header(lines, "upgrade"@);
    let connection = header(lines, "connection"@);
    let version = header(lines, "sec-websocket-version"@);
    let key = header(lines, "sec-websocket-key"@);
    if !headers_ok(lines) {
        Verdict::BadRequest
    } else if !(upgrade is Some && lowercase(upgrade->0) == "websocket"@) {
        Verdict::BadRequest
    } else if !(connection is Some && has_token(lowercase(connection->0), "upgrade"@)) {
        Verdict::BadRequest
    } else if version != Some("13"@) {
        Verdict::UpgradeRequired
    } else if !(key is Some && decoded(key->0) is Some && decoded(key->0)->0.len() == 16) {
        Verdict::BadRequest
    } else {
        Verdict::Granted(key->0)
    }
}

/// The lines of a request.
pub open spec fn request_lines(text: Seq<char>) -> Seq<Seq<char>> {
    split(text, seq!['\r', '\n'])
}

/// The space-separated words of the request line.
pub open spec fn request_words(text: Seq<char>) -> Seq<Seq<char>> {
    split(request_lines(text)[0], seq![' '])
}

/// A `GET` whose third word names a version of HTTP/1. With `exact`, there is no fourth.
pub open spec fn request_line_ok(text: Seq<char>, exact: bool) -> bool {
    let words = request_words(text);
    &&& words.len() >= 3
    &&& exact ==> words.len() == 3
    &&& words[0] == "GET"@
    &&& "HTTP/1."@.is_prefix_of(words[2])
}

/// The verdict on a request's text.
pub open spec fn text_verdict(text: Seq<char>, exact: bool) -> Verdict {
    if request_line_ok(text, exact) {
        headers_verdict(request_lines(text).skip(1))
    } else {
        Verdict::BadRequest
    }
}

/// The verdict on a request's bytes, which have to be UTF-8.
pub open spec fn request_verdict(request: Seq<u8>) -> Verdict {
    if valid_utf8(request) {
        text_verdict(decode_utf8(request), false)
    } else {
        Verdict::BadRequest
    }
}

/// The values of the headers called `name`, in order.
pub open spec fn values_of(lines: Seq<Seq<char>>, name: Seq<char>) -> Seq<Seq<char>>
    decreases lines.len(),
{
    if lines.len() == 0 {
        Seq::empty()
    } else {
        values_of(lines.drop_last(), name) + if lines.last().len() > 0 && header_name(lines.last())
            == name {
            seq![header_value(lines.last())]
        } else {
            Seq::empty()
        }
    }
}

/// A header that counts for an upgrade.
pub open spec fn counts(name: Seq<char>) -> bool {
    ||| name == "upgrade"@
    ||| name == "connection"@
    ||| name == "sec-websocket-version"@
    ||| name == "sec-websocket-key"@
}

/// The same headers that count for an upgrade, and the same soundness of the lines.
pub open spec fn alike(a: Seq<Seq<char>>, b: Seq<Seq<char>>) -> bool {
    &&& headers_ok(a) == headers_ok(b)
    &&& forall|name: Seq<char>| counts(name) ==> #[trigger] values_of(a, name) == values_of(b, name)
}

proof fn lemma_header_is_last(lines: Seq<Seq<char>>, name: Seq<char>)
    ensures
        header(lines, name) == (if values_of(lines, name).len() == 0 {
            None
        } else {
            Some(values_of(lines, name).last())
        }),
    decreases lines.len(),
{
    if lines.len() > 0 {
        lemma_header_is_last(lines.drop_last(), name);
        assert(values_of(lines.drop_last(), name) + Seq::<Seq<char>>::empty() =~= values_of(
            lines.drop_last(),
            name,
        ));
    }
}

proof fn lemma_values_add(a: Seq<Seq<char>>, b: Seq<Seq<char>>, name: Seq<char>)
    ensures
        values_of(a + b, name) == values_of(a, name) + values_of(b, name),
    decreases b.len(),
{
    if b.len() == 0 {
        assert(a + b =~= a);
        assert(values_of(a, name) + values_of(b, name) =~= values_of(a, name));
    } else {
        lemma_values_add(a, b.drop_last(), name);
        assert((a + b).drop_last() =~= a + b.drop_last());
        assert(values_of(a + b, name) =~= values_of(a, name) + values_of(b, name));
    }
}

proof fn lemma_values_one(line: Seq<char>, name: Seq<char>)
    ensures
        values_of(seq![line], name) == (if line.len() > 0 && header_name(line) == name {
            seq![header_value(line)]
        } else {
            Seq::empty()
        }),
{
    assert(seq![line].drop_last() =~= Seq::<Seq<char>>::empty());
    assert(values_of(Seq::<Seq<char>>::empty(), name) =~= Seq::<Seq<char>>::empty());
    let found = if line.len() > 0 && header_name(line) == name {
        seq![header_value(line)]
    } else {
        Seq::empty()
    };
    assert(Seq::<Seq<char>>::empty() + found =~= found);
}

proof fn lemma_headers_ok_add(a: Seq<Seq<char>>, b: Seq<Seq<char>>)
    ensures
        headers_ok(a + b) == (headers_ok(a) && headers_ok(b)),
{
    if headers_ok(a + b) {
        assert forall|i: int| 0 <= i < a.len() implies (#[trigger] a[i]).len() == 0 || split_once(
            a[i],
            ':',
        ) is Some by {
            assert((a + b)[i] == a[i]);
        }
        assert forall|i: int| 0 <= i < b.len() implies (#[trigger] b[i]).len() == 0 || split_once(
            b[i],
            ':',
        ) is Some by {
            assert((a + b)[a.len() + i] == b[i]);
        }
    }
}

/// The verdict on a request rests on its request line and on the headers that count, and on
/// nothing else: requests that are alike in these are judged alike, granted or refused.
pub proof fn lemma_verdict_heeds_what_counts(request: Seq<u8>, other: Seq<u8>)
    requires
        valid_utf8(request),
        valid_utf8(other),
        request_lines(decode_utf8(request))[0] == request_lines(decode_utf8(other))[0],
        alike(
            request_lines(decode_utf8(request)).skip(1),
            request_lines(decode_utf8(other)).skip(1),
        ),
    ensures
        request_verdict(request) == request_verdict(other),
        text_verdict(decode_utf8(request), true) == text_verdict(decode_utf8(other), true),
{
    lemma_alike_verdict(
        request_lines(decode_utf8(request)).skip(1),
        request_lines(decode_utf8(other)).skip(1),
    );
}

/// Header lines that are alike are judged alike.
pub proof fn lemma_alike_verdict(a: Seq<Seq<char>>, b: Seq<Seq<char>>)
    requires
        alike(a, b),
    ensures
        headers_verdict(a) == headers_verdict(b),
{
    assert forall|name: Seq<char>| counts(name) implies #[trigger] header(a, name) == header(
        b,
        name,
    ) by {
        lemma_header_is_last(a, name);
        lemma_header_is_last(b, name);
        assert(values_of(a, name) == values_of(b, name));
    }
    assert(counts("upgrade"@) && counts("connection"@) && counts("sec-websocket-version"@)
        && counts("sec-websocket-key"@));
}

/// Any other header, such as `Host`, `Origin` or `Sec-WebSocket-Protocol`, may be added or
/// left out.
pub proof fn lemma_other_headers_ignored(a: Seq<Seq<char>>, line: Seq<char>, b: Seq<Seq<char>>)
    requires
        split_once(line, ':') is Some,
        !counts(header_name(line)),
    ensures
        alike(a + seq![line] + b, a + b),
{
    lemma_headers_ok_add(a + seq![line], b);
    lemma_headers_ok_add(a, seq![line]);
    lemma_headers_ok_add(a, b);
    assert forall|name: Seq<char>| counts(name) implies #[trigger] values_of(
        a + seq![line] + b,
        name,
    ) == values_of(a + b, name) by {
        lemma_values_add(a + seq![line], b, name);
        lemma_values_add(a, seq![line], name);
        lemma_values_add(a, b, name);
        lemma_values_one(line, name);
        assert(values_of(a, name) + Seq::<Seq<char>>::empty() =~= values_of(a, name));
    }
}

/// Headers of different names may change places.
pub proof fn lemma_header_order_ignored(
    a: Seq<Seq<char>>,
    x: Seq<char>,
    y: Seq<char>,
    b: Seq<Seq<char>>,
)
    requires
        header_name(x) != header_name(y),
    ensures
        alike(a + seq![x] + seq![y] + b, a + seq![y] + seq![x] + b),
{
    lemma_headers_ok_add(a + seq![x] + seq![y], b);
    lemma_headers_ok_add(a + seq![x], seq![y]);
    lemma_headers_ok_add(a, seq![x]);
    lemma_headers_ok_add(a + seq![y] + seq![x], b);
    lemma_headers_ok_add(a + seq![y], seq![x]);
    lemma_headers_ok_add(a, seq![y]);
    assert forall|name: Seq<char>| counts(name) implies #[trigger] values_of(
        a + seq![x] + seq![y] + b,
        name,
    ) == values_of(a + seq![y] + seq![x] + b, name) by {
        lemma_values_add(a + seq![x] + seq![y], b, name);
        lemma_values_add(a + seq![x], seq![y], name);
        lemma_values_add(a, seq![x], name);
        lemma_values_add(a + seq![y] + seq![x], b, name);
        lemma_values_add(a + seq![y], seq![x], name);
        lemma_values_add(a, seq![y], name);
        lemma_values_one(x, name);
        lemma_values_one(y, name);
        assert(values_of(a + seq![x] + seq![y], name) =~= values_of(
            a + seq![y] + seq![x],
            name,
        ));
    }
}

/// The names of headers may be written in letters of either case.
pub proof fn lemma_name_case_ignored(
    a: Seq<Seq<char>>,
    x: Seq<char>,
    y: Seq<char>,
    b: Seq<Seq<char>>,
)
    requires
        split_once(x, ':') matches Some((name, value)) && (split_once(y, ':') matches Some(
            (name2, value2),
        ) && lowercase(name) == lowercase(name2) && value == value2),
    ensures
        alike(a + seq![x] + b, a + seq![y] + b),
{
    let (name, value) = split_once(x, ':')->0;
    let (name2, value2) = split_once(y, ':')->0;
    lemma_trim_lowercase(name);
    lemma_trim_lowercase(name2);
    lemma_find_bound(x, seq![':'], 0);
    lemma_find_bound(y, seq![':'], 0);
    lemma_headers_ok_add(a + seq![x], b);
    lemma_headers_ok_add(a, seq![x]);
    lemma_headers_ok_add(a + seq![y], b);
    lemma_headers_ok_add(a, seq![y]);
    assert forall|n: Seq<char>| counts(n) implies #[trigger] values_of(a + seq![x] + b, n)
        == values_of(a + seq![y] + b, n) by {
        lemma_values_add(a + seq![x], b, n);
        lemma_values_add(a, seq![x], n);
        lemma_values_add(a + seq![y], b, n);
        lemma_values_add(a, seq![y], n);
        lemma_values_one(x, n);
        lemma_values_one(y, n);
    }
}

proof fn lemma_trim_lowercase(s: Seq<char>)
    ensures
        trim(lowercase(s)) == lowercase(trim(s)),
{
    lemma_trim_start_lowercase(s);
    lemma_trim_end_lowercase(trim_start(s));
}

proof fn lemma_trim_start_lowercase(s: Seq<char>)
    ensures
        trim_start(lowercase(s)) == lowercase(trim_start(s)),
    decreases s.len(),
{
    if s.len() > 0 && is_space(s[0]) {
        lemma_trim_start_lowercase(s.skip(1));
        assert(lowercase(s).skip(1) =~= lowercase(s.skip(1)));
    }
}

proof fn lemma_trim_end_lowercase(s: Seq<char>)
    ensures
        trim_end(lowercase(s)) == lowercase(trim_end(s)),
    decreases s.len(),
{
    if s.len() > 0 && is_space(s.last()) {
        lemma_trim_end_lowercase(s.drop_last());
        assert(lowercase(s).drop_last() =~= lowercase(s.drop_last()));
    }
}

/// The last header line called `name`, whatever the case of its letters, says `value`.
pub open spec fn last_says(lines: Seq<Seq<char>>, name: Seq<char>, value: Seq<char>) -> bool {
    exists|i: int|
        {
            &&& 0 <= i < lines.len()
            &&& lines[i].len() > 0
            &&& #[trigger] header_name(lines[i]) == name
            &&& header_value(lines[i]) == value
            &&& forall|j: int| i < j < lines.len() && lines[j].len() > 0 ==> #[trigger] header_name(
                lines[j],
            ) != name
        }
}

/// A header line is a name, a colon and a value, with white space around either; a colon in
/// the value is part of it.
pub proof fn lemma_header_is(name: Seq<char>, val: Seq<char>)
    requires
        !name.contains(':'),
    ensures
        header_name(name + seq![':'] + val) == lowercase(trim(name)),
        header_value(name + seq![':'] + val) == trim(val),
{
    let line = name + seq![':'] + val;
    lemma_split_once_is(line, ':');
    assert(line[name.len() as int] == ':');
    let (a, b) = split_once(line, ':')->0;
    if a.len() < name.len() {
        assert(line[a.len() as int] == (a + seq![':'] + b)[a.len() as int]);
        assert(name[a.len() as int] == ':');
    } else if a.len() > name.len() {
        assert((a + seq![':'] + b)[name.len() as int] == ':');
        assert(a[name.len() as int] == ':');
    }
    assert(a =~= line.take(name.len() as int));
    assert(a =~= name);
    assert(b =~= line.skip(name.len() as int + 1));
    assert(b =~= val);
}

proof fn lemma_last_says(lines: Seq<Seq<char>>, name: Seq<char>, val: Seq<char>)
    ensures
        last_says(lines, name, val) <==> header(lines, name) == Some(val),
    decreases lines.len(),
{
    if lines.len() > 0 {
        let front = lines.drop_last();
        let k = lines.len() - 1;
        lemma_last_says(front, name, val);
        let here = lines[k].len() > 0 && header_name(lines[k]) == name;
        if here {
            if header_value(lines[k]) == val {
                assert(last_says(lines, name, val));
            }
            if last_says(lines, name, val) {
                let i = choose|i: int|
                    {
                        &&& 0 <= i < lines.len()
                        &&& lines[i].len() > 0
                        &&& #[trigger] header_name(lines[i]) == name
                        &&& header_value(lines[i]) == val
                        &&& forall|j: int|
                            i < j < lines.len() && lines[j].len() > 0 ==> #[trigger] header_name(
                                lines[j],
                            ) != name
                    };
                if i < k {
                    assert(header_name(lines[k]) != name);
                }
            }
        } else {
            if last_says(lines, name, val) {
                let i = choose|i: int|
                    {
                        &&& 0 <= i < lines.len()
                        &&& lines[i].len() > 0
                        &&& #[trigger] header_name(lines[i]) == name
                        &&& header_value(lines[i]) == val
                        &&& forall|j: int|
                            i < j < lines.len() && lines[j].len() > 0 ==> #[trigger] header_name(
                                lines[j],
                            ) != name
                    };
                assert(i < k);
                assert(front[i] == lines[i]);
                assert forall|j: int| i < j < front.len() && front[j].len()
                    > 0 implies #[trigger] header_name(front[j]) != name by {
                    assert(front[j] == lines[j]);
                    assert(header_name(lines[j]) != name);
                }
                assert(header_name(front[i]) == name);
                assert(last_says(front, name, val));
            }
            if last_says(front, name, val) {
                let i = choose|i: int|
                    {
                        &&& 0 <= i < front.len()
                        &&& front[i].len() > 0
                        &&& #[trigger] header_name(front[i]) == name
                        &&& header_value(front[i]) == val
                        &&& forall|j: int|
                            i < j < front.len() && front[j].len() > 0 ==> #[trigger] header_name(
                                front[j],
                            ) != name
                    };
                assert(lines[i] == front[i]);
                assert forall|j: int| i < j < lines.len() && lines[j].len()
                    > 0 implies #[trigger] header_name(lines[j]) != name by {
                    if j < k {
                        assert(front[j] == lines[j]);
                        assert(header_name(front[j]) != name);
                    }
                }
                assert(header_name(lines[i]) == name);
                assert(last_says(lines, name, val));
            }
        }
    }
}

/// The request line and the headers of an upgrade request but for its version and its key: a
/// `GET` of some HTTP/1, every header with a colon, `Upgrade` that says `websocket` and
/// `Connection` among whose tokens is `upgrade`, in letters of either case.
pub open spec fn asks_for_upgrade(text: Seq<char>, exact: bool) -> bool {
    let lines = split(text, seq!['\r', '\n']);
    let words = split(lines[0], seq![' ']);
    let headers = lines.skip(1);
    &&& words.len() >= 3
    &&& exact ==> words.len() == 3
    &&& words[0] == seq!['G', 'E', 'T']
    &&& seq!['H', 'T', 'T', 'P', '/', '1', '.'].is_prefix_of(words[2])
    &&& forall|i: int|
        0 <= i < headers.len() && (#[trigger] headers[i]).len() > 0 ==> headers[i].contains(':')
    &&& exists|v: Seq<char>| #[trigger]
        last_says(headers, "upgrade"@, v) && lowercase(v) == "websocket"@
    &&& exists|v: Seq<char>, i: int|
        {
            &&& last_says(headers, "connection"@, v)
            &&& 0 <= i < split(lowercase(v), seq![',']).len()
            &&& trim(#[trigger] split(lowercase(v), seq![','])[i]) == "upgrade"@
        }
}

/// What becomes of an upgrade request. One that does not ask for an upgrade is a bad request;
/// one of another version is told so; one with a key of sixteen bytes is granted, whatever
/// they are; and no other.
pub proof fn lemma_judged(text: Seq<char>, exact: bool, key: Seq<char>)
    ensures
        ({
            let headers = split(text, seq!['\r', '\n']).skip(1);
            let v = text_verdict(text, exact);
            &&& !asks_for_upgrade(text, exact) ==> v is BadRequest
            &&& v is UpgradeRequired <==> asks_for_upgrade(text, exact) && !last_says(
                headers,
                "sec-websocket-version"@,
                "13"@,
            )
            &&& v == Verdict::Granted(key) <==> {
                &&& asks_for_upgrade(text, exact)
                &&& last_says(headers, "sec-websocket-version"@, "13"@)
                &&& last_says(headers, "sec-websocket-key"@, key)
                &&& decoded(key) matches Some(bytes) && bytes.len() == 16
            }
        }),
{
    let lines = split(text, seq!['\r', '\n']);
    let headers = lines.skip(1);
    let words = split(lines[0], seq![' ']);
    reveal_strlit("GET");
    reveal_strlit("HTTP/1.");
    assert("GET"@ =~= seq!['G', 'E', 'T']);
    assert("HTTP/1."@ =~= seq!['H', 'T', 'T', 'P', '/', '1', '.']);
    assert forall|v: Seq<char>| #[trigger]
        last_says(headers, "upgrade"@, v) <==> header(headers, "upgrade"@) == Some(v) by {
        lemma_last_says(headers, "upgrade"@, v);
    }
    assert forall|v: Seq<char>| #[trigger]
        last_says(headers, "connection"@, v) <==> header(headers, "connection"@) == Some(v) by {
        lemma_last_says(headers, "connection"@, v);
    }
    lemma_last_says(headers, "sec-websocket-version"@, "13"@);
    lemma_last_says(headers, "sec-websocket-key"@, key);
    assert(headers_ok(headers) <==> forall|i: int|
        0 <= i < headers.len() && (#[trigger] headers[i]).len() > 0 ==> headers[i].contains(':'))
        by {
        assert forall|i: int| 0 <= i < headers.len() implies (split_once(
            #[trigger] headers[i],
            ':',
        ) is Some <==> headers[i].contains(':')) by {
            lemma_split_once_is(headers[i], ':');
            if let Some((a, b)) = split_once(headers[i], ':') {
                assert((a + seq![':'] + b)[a.len() as int] == ':');
            }
        }
    }
    if let Some(v) = header(headers, "upgrade"@) {
        assert(last_says(headers, "upgrade"@, v));
    }
    if let Some(v) = header(headers, "connection"@) {
        assert(last_says(headers, "connection"@, v));
        if has_token(lowercase(v), "upgrade"@) {
            let i = choose|i: int|
                0 <= i < split(lowercase(v), seq![',']).len() && trim(
                    #[trigger] split(lowercase(v), seq![','])[i],
                ) == "upgrade"@;
            assert(trim(split(lowercase(v), seq![','])[i]) == "upgrade"@);
        }
    }
    if asks_for_upgrade(text, exact) {
        let (v, i) = choose|v: Seq<char>, i: int|
            {
                &&& last_says(headers, "connection"@, v)
                &&& 0 <= i < split(lowercase(v), seq![',']).len()
                &&& trim(#[trigger] split(lowercase(v), seq![','])[i]) == "upgrade"@
            };
        assert(has_token(lowercase(v), "upgrade"@));
    }
}

/// An upgrade is granted to the key of every client that asks for one properly: any sixteen
/// bytes, in base64.
pub proof fn lemma_any_key_granted(request: Seq<u8>, bytes: Seq<u8>)
    requires
        valid_utf8(request),
        asks_for_upgrade(decode_utf8(request), false),
        last_says(
            split(decode_utf8(request), seq!['\r', '\n']).skip(1),
            "sec-websocket-version"@,
            "13"@,
        ),
        last_says(
            split(decode_utf8(request), seq!['\r', '\n']).skip(1),
            "sec-websocket-key"@,
            encoded(bytes),
        ),
        bytes.len() == 16,
    ensures
        request_verdict(request) == Verdict::Granted(encoded(bytes)),
{
    lemma_judged(decode_utf8(request), false, encoded(bytes));
    crate::ws::base64::lemma_decode_encode(bytes);
}

/// A request that is not UTF-8 is a bad request, and any other is judged by its text.
pub proof fn lemma_request_is_text(request: Seq<u8>)
    ensures
        !valid_utf8(request) ==> request_verdict(request) is BadRequest,
        valid_utf8(request) ==> request_verdict(request) == text_verdict(
            decode_utf8(request),
            false,
        ),
{
}

/// The answer to a key is the base64 of the SHA-1 of the key and the protocol's identifier.
pub proof fn lemma_accept_is(key: Seq<char>)
    ensures
        accept_value(key) == encoded(
            digest(encode_utf8(key) + encode_utf8("258EAFA5-E914-47DA-95CA-C5AB0DC85B11"@)),
        ),
{
}

/// `r` says what `v` is.
pub open spec fn answers(r: Result<String, &'static str>, v: Verdict) -> bool {
    match r {
        Ok(key) => v == Verdict::Granted(key@),
        Err(status) => (v == Verdict::BadRequest && status == BAD_REQUEST) || (v
            == Verdict::UpgradeRequired && status == UPGRADE_REQUIRED),
    }
}

/// `value` behind the first colon of `line`, and the name before it.
fn read_header(line: &[char]) -> (r: Option<(Vec<char>, Vec<char>)>)
    ensures
        match r {
            Some((name, value)) => split_once(line@, ':') is Some && name@ == header_name(line@)
                && value@ == header_value(line@),
            None => split_once(line@, ':') is None,
        },
{
    match find_char(line, ':') {
        None => None,
        Some(at) => {
            let total: usize = line.len();
            let name: Vec<char> = part(line, 0, at);
            let value: Vec<char> = part(line, at + 1, total);
            assert(name@ =~= line@.take(at as int));
            assert(value@ =~= line@.skip(at + 1));
            let name: Vec<char> = trimmed(name.as_slice());
            Some((lowercased(name.as_slice()), trimmed(value.as_slice())))
        },
    }
}

/// Whether one of the comma-separated tokens of `value` is `upgrade`.
fn names_upgrade(value: &[char]) -> (r: bool)
    ensures
        r == has_token(value@, "upgrade"@),
{
    let tokens: Vec<Vec<char>> = split_char(value, ',');
    let ghost cut = split(value@, seq![',']);
    assert(cut.len() == tokens@.len());
    let mut i: usize = 0;
    while i < tokens.len()
        invariant
            i <= tokens@.len(),
            views(tokens@) == cut,
            cut == split(value@, seq![',']),
            cut.len() == tokens@.len(),
            forall|j: int| 0 <= j < i ==> trim(#[trigger] cut[j]) != "upgrade"@,
        decreases tokens@.len() - i,
    {
        let token: Vec<char> = trimmed(tokens[i].as_slice());
        assert(tokens@[i as int]@ == cut[i as int]);
        if same_str(token.as_slice(), "upgrade") {
            return true;
        }
        i = i + 1;
    }
    false
}

/// `r` is the view of an optional text.
spec fn optional(r: Option<Vec<char>>) -> Option<Seq<char>> {
    match r {
        Some(v) => Some(v@),
        None => None,
    }
}

/// The verdict on the header lines.
fn judge_headers(lines: &Vec<Vec<char>>) -> (r: Result<String, &'static str>)
    requires
        lines@.len() > 0,
    ensures
        answers(r, headers_verdict(views(lines@).skip(1))),
{
    let ghost all = views(lines@).skip(1);
    let mut upgrade: Option<Vec<char>> = None;
    let mut connection: Option<Vec<char>> = None;
    let mut version: Option<Vec<char>> = None;
    let mut key: Option<Vec<char>> = None;
    let mut i: usize = 1;
    assert(all.take(0) =~= Seq::<Seq<char>>::empty());
    proof {
        reveal_strlit("upgrade");
        reveal_strlit("connection");
        reveal_strlit("sec-websocket-version");
        reveal_strlit("sec-websocket-key");
        assert("upgrade"@.len() == 7 && "connection"@.len() == 10 && "sec-websocket-version"@.len()
            == 21 && "sec-websocket-key"@.len() == 17);
    }
    while i < lines.len()
        invariant
            1 <= i <= lines@.len(),
            all == views(lines@).skip(1),
            headers_ok(all.take(i - 1)),
            optional(upgrade) == header(all.take(i - 1), "upgrade"@),
            optional(connection) == header(all.take(i - 1), "connection"@),
            optional(version) == header(all.take(i - 1), "sec-websocket-version"@),
            optional(key) == header(all.take(i - 1), "sec-websocket-key"@),
            "upgrade"@.len() == 7 && "connection"@.len() == 10 && "sec-websocket-version"@.len()
                == 21 && "sec-websocket-key"@.len() == 17,
        decreases lines@.len() - i,
    {
        let ghost line = all[i - 1];
        let ghost before = all.take(i - 1);
        assert(lines@[i as int]@ == line);
        assert(all.take(i as int).drop_last() =~= before);
        assert(all.take(i as int).last() == line);
        if lines[i].len() > 0 {
            match read_header(lines[i].as_slice()) {
                None => {
                    assert(!headers_ok(all)) by {
                        assert(all[i - 1] == line);
                    }
                    return Err(BAD_REQUEST);
                },
                Some((name, value)) => {
                    if same_str(name.as_slice(), "upgrade") {
                        upgrade = Some(value);
                    } else if same_str(name.as_slice(), "connection") {
                        connection = Some(value);
                    } else if same_str(name.as_slice(), "sec-websocket-version") {
                        version = Some(value);
                    } else if same_str(name.as_slice(), "sec-websocket-key") {
                        key = Some(value);
                    }
                },
            }
        }
        assert(headers_ok(all.take(i as int))) by {
            assert forall|j: int| 0 <= j < i implies (#[trigger] all.take(i as int)[j]).len() == 0
                || split_once(all.take(i as int)[j], ':') is Some by {
                if j < i - 1 {
                    assert(before[j] == all.take(i as int)[j]);
                }
            }
        }
        i = i + 1;
    }
    assert(all.take(i - 1) =~= all);
    match upgrade {
        None => {
            return Err(BAD_REQUEST);
        },
        Some(value) => {
            let value: Vec<char> = lowercased(value.as_slice());
            if !same_str(value.as_slice(), "websocket") {
                return Err(BAD_REQUEST);
            }
        },
    }
    match connection {
        None => {
            return Err(BAD_REQUEST);
        },
        Some(value) => {
            let value: Vec<char> = lowercased(value.as_slice());
            if !names_upgrade(value.as_slice()) {
                return Err(BAD_REQUEST);
            }
        },
    }
    match version {
        None => {
            return Err(UPGRADE_REQUIRED);
        },
        Some(value) => {
            if !same_str(value.as_slice(), "13") {
                return Err(UPGRADE_REQUIRED);
            }
        },
    }
    match key {
        None => Err(BAD_REQUEST),
        Some(value) => match decode_chars(value.as_slice()) {
            None => Err(BAD_REQUEST),
            Some(bytes) => if bytes.len() == 16 {
                Ok(string_of(value.as_slice()))
            } else {
                Err(BAD_REQUEST)
            },
        },
    }
}

/// The verdict on a request's text: its key, or the status line to reply with. With
/// `exact`, the request line has three words and no more.
pub fn parse_upgrade_text(text: &str, exact: bool) -> (r: Result<String, &'static str>)
    ensures
        answers(r, text_verdict(text@, exact)),
{
    let chars: Vec<char> = chars_of(text);
    let lines: Vec<Vec<char>> = split_lines(chars.as_slice());
    let words: Vec<Vec<char>> = split_char(lines[0].as_slice(), ' ');
    let ghost cut = request_words(text@);
    proof {
        assert(views(lines@)[0] == lines@[0]@);
        assert(views(words@) == cut);
        assert(words@.len() == cut.len());
    }
    if words.len() < 3 || (exact && words.len() != 3) {
        return Err(BAD_REQUEST);
    }
    assert(words@[0]@ == cut[0]);
    assert(words@[2]@ == cut[2]);
    if !same_str(words[0].as_slice(), "GET") || !starts_with(words[2].as_slice(), "HTTP/1.") {
        return Err(BAD_REQUEST);
    }
    judge_headers(&lines)
}

/// The verdict on an upgrade request, its bytes up to the blank line: the key, or the
/// status line to reply with. A request that is not UTF-8 is a bad request.
pub fn parse_upgrade(request: &[u8]) -> (r: Result<String, &'static str>)
    ensures
        answers(r, request_verdict(request@)),
{
    match std::str::from_utf8(request) {
        Ok(text) => parse_upgrade_text(text, false),
        Err(_) => Err(BAD_REQUEST),
    }
}

/// Like [`parse_upgrade`], for a request line of exactly three words, and with what is not
/// UTF-8 replaced in place of refused.
pub fn parse_upgrade_lossy(request: &[u8]) -> (r: Result<String, &'static str>)
    ensures
        answers(r, text_verdict(utf8_lossy(request@), true)),
        valid_utf8(request@) ==> answers(r, text_verdict(decode_utf8(request@), true)),
        utf8_lossy(request@).len() <= request@.len(),
{
    let text: String = text_lossy(request);
    parse_upgrade_text(text.as_str(), true)
}

} // verus!
