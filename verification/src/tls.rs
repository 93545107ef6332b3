//! Moving bytes through a TLS connection: records in and plaintext out, plaintext in and
//! records out.

use std::io::{Read, Write};

use rustls::Connection;
use vstd::prelude::*;

use crate::protocol::write_frame;
#[allow(unused_imports)]
use crate::protocol::framed;

verus! {

/// Declares `rustls::Connection`, whose insides are not looked at.
#[verifier::external_type_specification]
#[verifier::external_body]
pub struct ExConnection(rustls::Connection);

/// The record bytes that the connection has taken in since it was made.
pub uninterp spec fn fed(conn: Connection) -> Seq<u8>;

/// What `read_tls` of the connection gives back for these record bytes: how many of them, from
/// the front, the connection takes in, or `None` when its buffers are full.
pub uninterp spec fn taken(conn: Connection, raw: Seq<u8>) -> Option<usize>;

/// The record bytes that the connection had taken in when it last processed them.
pub uninterp spec fn processed(conn: Connection) -> Seq<u8>;

/// The plaintext that the connection has decrypted since it was made.
pub uninterp spec fn opened(conn: Connection) -> Seq<u8>;

/// The plaintext that the connection holds for its reader.
pub uninterp spec fn received(conn: Connection) -> Seq<u8>;

/// The plaintext that the connection has accepted for sending since it was made.
pub uninterp spec fn handed(conn: Connection) -> Seq<u8>;

/// The record bytes that the connection has produced since it was made.
pub uninterp spec fn sealed(conn: Connection) -> Seq<u8>;

/// The record bytes that the connection holds for its peer.
pub uninterp spec fn sendable(conn: Connection) -> Seq<u8>;

/// What `write` of the connection's writer gives back for these bytes: how many of them, from
/// the front, the connection accepts, or `None` when it refuses.
pub uninterp spec fn accepted(conn: Connection, data: Seq<u8>) -> Option<usize>;

/// Whether processing what the connection took in has met a fatal error.
pub uninterp spec fn broken(conn: Connection) -> bool;

/// Whether the peer has announced the end of what it sends.
pub uninterp spec fn ended(conn: Connection) -> bool;

/// What `all` has gained since it was `before`.
pub open spec fn gained(before: Seq<u8>, all: Seq<u8>) -> Seq<u8> {
    all.skip(before.len() as int)
}

/// The inward side of the connection is as it was.
pub open spec fn same_in(a: Connection, b: Connection) -> bool {
    &&& fed(a) == fed(b)
    &&& processed(a) == processed(b)
    &&& opened(a) == opened(b)
    &&& received(a) == received(b)
    &&& ended(a) == ended(b)
}

/// The outward side of the connection is as it was.
pub open spec fn same_out(a: Connection, b: Connection) -> bool {
    &&& handed(a) == handed(b)
    &&& sealed(a) == sealed(b)
    &&& sendable(a) == sendable(b)
}

/// What was decrypted since waits behind what waited before.
pub open spec fn opened_more(a: Connection, b: Connection) -> bool {
    &&& opened(a).is_prefix_of(opened(b))
    &&& received(b) == received(a) + gained(opened(a), opened(b))
}

/// What was produced since waits behind what waited before.
pub open spec fn sealed_more(a: Connection, b: Connection) -> bool {
    &&& sealed(a).is_prefix_of(sealed(b))
    &&& sendable(b) == sendable(a) + gained(sealed(a), sealed(b))
}

/// What was decrypted since, behind what waited before, stands at the end of `to`, but for
/// what still waits.
pub open spec fn moved_in(a: Connection, from: Seq<u8>, b: Connection, to: Seq<u8>) -> bool {
    &&& opened(a).is_prefix_of(opened(b))
    &&& to + received(b) == from + received(a) + gained(opened(a), opened(b))
}

/// What was produced since, behind what waited before, stands at the end of `to`, and nothing
/// waits.
pub open spec fn moved_out(a: Connection, from: Seq<u8>, b: Connection, to: Seq<u8>) -> bool {
    &&& sealed(a).is_prefix_of(sealed(b))
    &&& to == from + sendable(a) + gained(sealed(a), sealed(b))
    &&& sendable(b) == Seq::<u8>::empty()
}

/// Plaintext stays in order: what two calls moved, one after the other and whatever was sent
/// between them, is what one call would have moved.
pub proof fn lemma_plaintext_in_order(
    a: Connection,
    b: Connection,
    c: Connection,
    d: Connection,
    first: Seq<u8>,
    second: Seq<u8>,
    third: Seq<u8>,
)
    requires
        moved_in(a, first, b, second),
        same_in(b, c),
        moved_in(c, second, d, third),
    ensures
        moved_in(a, first, d, third),
{
    lemma_grown(opened(a), opened(b), opened(d));
    assert(third + received(d) =~= first + received(a) + gained(opened(a), opened(d)));
}

/// Records stay in order: what two calls moved, one after the other and whatever was decrypted
/// between them, is what one call would have moved.
pub proof fn lemma_records_in_order(
    a: Connection,
    b: Connection,
    c: Connection,
    d: Connection,
    first: Seq<u8>,
    second: Seq<u8>,
    third: Seq<u8>,
)
    requires
        moved_out(a, first, b, second),
        sealed_more(b, c),
        moved_out(c, second, d, third),
    ensures
        moved_out(a, first, d, third),
{
    lemma_grown(sealed(a), sealed(b), sealed(c));
    lemma_grown(sealed(a), sealed(c), sealed(d));
    assert(third =~= first + sendable(a) + gained(sealed(a), sealed(d)));
}

/// Somewhere in `data` the connection, handed all before it, refused the rest.
pub open spec fn refused(start: Connection, data: Seq<u8>) -> bool {
    exists|c: Connection, k: int|
        {
            &&& 0 <= k <= data.len()
            &&& handed(c) == handed(start) + data.take(k)
            &&& #[trigger] accepted(c, data.subrange(k, data.len() as int)) is None
        }
}

/// Somewhere in `data` the connection, handed all before it, refused the rest or accepted
/// none of it.
pub open spec fn spent(start: Connection, data: Seq<u8>) -> bool {
    exists|c: Connection, k: int|
        {
            &&& 0 <= k <= data.len()
            &&& handed(c) == handed(start) + data.take(k)
            &&& (accepted(c, data.subrange(k, data.len() as int)) is None || #[trigger] accepted(
                c,
                data.subrange(k, data.len() as int),
            ) == Some(0usize))
        }
}

/// Somewhere in `data` the connection, handed all before it and with nothing left to flush,
/// accepted none of the rest.
pub open spec fn stalled(start: Connection, data: Seq<u8>) -> bool {
    exists|c: Connection, k: int|
        {
            &&& 0 <= k <= data.len()
            &&& handed(c) == handed(start) + data.take(k)
            &&& sendable(c) == Seq::<u8>::empty()
            &&& #[trigger] accepted(c, data.subrange(k, data.len() as int)) == Some(0usize)
        }
}

/// Somewhere in `raw` the connection, fed all before it, with all of that processed and
/// nothing left to read, had no room for the rest.
pub open spec fn jammed(start: Connection, raw: Seq<u8>) -> bool {
    exists|c: Connection, k: int|
        {
            &&& 0 <= k <= raw.len()
            &&& fed(c) == fed(start) + raw.take(k)
            &&& processed(c) == fed(c)
            &&& received(c) == Seq::<u8>::empty()
            &&& #[trigger] taken(c, raw.subrange(k, raw.len() as int)) is None
        }
}

proof fn lemma_grown(a: Seq<u8>, b: Seq<u8>, c: Seq<u8>)
    requires
        a.is_prefix_of(b),
        b.is_prefix_of(c),
    ensures
        a.is_prefix_of(c),
        gained(a, c) == gained(a, b) + gained(b, c),
{
    assert(a =~= c.subrange(0, a.len() as int));
    assert(gained(a, c) =~= gained(a, b) + gained(b, c));
}

// Calls of the connection -----------------------------------------------------

/// Calls `rustls::Connection::read_tls` on bytes in memory: how many of them, from the front,
/// the connection took in, or `None` when its buffers are full. It takes none of some only
/// after the peer announced the end. Nothing is decrypted or produced yet. When the buffers
/// are full depends on the connection and on `raw` alone and is only named.
#[verifier::external_body]
fn feed_tls(conn: &mut Connection, raw: &[u8]) -> (took: Option<usize>)
    ensures
        took == taken(*old(conn), raw@),
        match took {
            Some(n) => {
                &&& n <= raw@.len()
                &&& fed(*final(conn)) == fed(*old(conn)) + raw@.take(n as int)
                &&& n == 0 && raw@.len() > 0 ==> ended(*old(conn))
            },
            None => fed(*final(conn)) == fed(*old(conn)),
        },
        processed(*final(conn)) == processed(*old(conn)),
        opened(*final(conn)) == opened(*old(conn)),
        received(*final(conn)) == received(*old(conn)),
        ended(*final(conn)) == ended(*old(conn)),
        broken(*final(conn)) == broken(*old(conn)),
        same_out(*old(conn), *final(conn)),
{
    let mut rest: &[u8] = raw;
    conn.read_tls(&mut rest).ok()
}

/// Calls `rustls::Connection::process_new_packets`: whether it succeeded, and so has processed
/// all that was taken in. It fails on a fatal error, which it keeps: from then on it fails on
/// every call. Either way what it decrypted waits for the reader behind what waited, and what
/// it produced waits for the peer behind what waited. Which bytes these are, and which errors
/// are met, is not said.
#[verifier::external_body]
fn process_tls(conn: &mut Connection) -> (ok: bool)
    ensures
        ok == !broken(*final(conn)),
        broken(*old(conn)) ==> !ok,
        ok ==> processed(*final(conn)) == fed(*final(conn)),
        fed(*final(conn)) == fed(*old(conn)),
        handed(*final(conn)) == handed(*old(conn)),
        ended(*old(conn)) ==> ended(*final(conn)),
        opened_more(*old(conn), *final(conn)),
        sealed_more(*old(conn), *final(conn)),
{
    conn.process_new_packets().is_ok()
}

/// Calls `read` of `rustls::Connection::reader`: how many bytes of the plaintext that waits
/// it moved into `buf`, as many as fit. It fails only where none waits.
#[verifier::external_body]
fn read_plain(conn: &mut Connection, buf: &mut Vec<u8>) -> (read: Option<usize>)
    ensures
        final(buf)@.len() == old(buf)@.len(),
        match read {
            Some(n) => {
                &&& n == vstd::math::min(
                    received(*old(conn)).len() as int,
                    old(buf)@.len() as int,
                )
                &&& final(buf)@.take(n as int) == received(*old(conn)).take(n as int)
                &&& received(*final(conn)) == received(*old(conn)).skip(n as int)
            },
            None => {
                &&& received(*old(conn)).len() == 0
                &&& received(*final(conn)) == received(*old(conn))
            },
        },
        fed(*final(conn)) == fed(*old(conn)),
        processed(*final(conn)) == processed(*old(conn)),
        opened(*final(conn)) == opened(*old(conn)),
        ended(*final(conn)) == ended(*old(conn)),
        broken(*final(conn)) == broken(*old(conn)),
        same_out(*old(conn), *final(conn)),
{
    conn.reader().read(buf).ok()
}

/// Calls `write` of `rustls::Connection::writer`: how many of the bytes of `data`, from the
/// front, the connection accepted, or `None` when it refused, which it does exactly after a
/// fatal error. What it produced waits for the peer behind what waited. How many it accepts depends on the connection and on `data` alone
/// and is only named; which records come of them is not said.
#[verifier::external_body]
fn write_plain(conn: &mut Connection, data: &[u8]) -> (took: Option<usize>)
    ensures
        took == accepted(*old(conn), data@),
        match took {
            Some(n) => {
                &&& n <= data@.len()
                &&& handed(*final(conn)) == handed(*old(conn)) + data@.take(n as int)
            },
            None => handed(*final(conn)) == handed(*old(conn)),
        },
        took is None <==> broken(*old(conn)),
        broken(*final(conn)) == broken(*old(conn)),
        sealed_more(*old(conn), *final(conn)),
        same_in(*old(conn), *final(conn)),
{
    conn.writer().write(data).ok()
}

/// Calls `rustls::CommonState::wants_write`: whether record bytes wait for the peer.
#[verifier::external_body]
fn wants_write(conn: &Connection) -> (r: bool)
    ensures
        r == (sendable(*conn).len() > 0),
{
    conn.wants_write()
}

/// Calls `rustls::Connection::write_tls` on a buffer in memory: how many of the record bytes
/// that wait it moved to the end of `out`, at least one where one waits. It fails only where
/// its writer does, which one in memory does not.
#[verifier::external_body]
fn take_tls(conn: &mut Connection, out: &mut Vec<u8>) -> (moved: Option<usize>)
    ensures
        moved is Some,
        moved matches Some(n) ==> {
            &&& n <= sendable(*old(conn)).len()
            &&& n == 0 ==> sendable(*old(conn)).len() == 0
            &&& final(out)@ == old(out)@ + sendable(*old(conn)).take(n as int)
            &&& sendable(*final(conn)) == sendable(*old(conn)).skip(n as int)
        },
        handed(*final(conn)) == handed(*old(conn)),
        sealed(*final(conn)) == sealed(*old(conn)),
        broken(*final(conn)) == broken(*old(conn)),
        same_in(*old(conn), *final(conn)),
{
    conn.write_tls(out).ok()
}

// Inward ----------------------------------------------------------------------

/// The bytes read from a connection at a time.
pub const READ_SIZE: usize = 16384;

/// Moves all the plaintext that waits to the end of `sink`.
pub fn drain_reader(conn: &mut Connection, sink: &mut Vec<u8>)
    ensures
        final(sink)@ == old(sink)@ + received(*old(conn)),
        received(*final(conn)) == Seq::<u8>::empty(),
        fed(*final(conn)) == fed(*old(conn)),
        processed(*final(conn)) == processed(*old(conn)),
        opened(*final(conn)) == opened(*old(conn)),
        ended(*final(conn)) == ended(*old(conn)),
        broken(*final(conn)) == broken(*old(conn)),
        same_out(*old(conn), *final(conn)),
{
    let mut buf: Vec<u8> = vec![0; READ_SIZE];
    loop
        invariant
            buf@.len() == READ_SIZE,
            sink@ + received(*conn) == old(sink)@ + received(*old(conn)),
            fed(*conn) == fed(*old(conn)),
            processed(*conn) == processed(*old(conn)),
            opened(*conn) == opened(*old(conn)),
            ended(*conn) == ended(*old(conn)),
            broken(*conn) == broken(*old(conn)),
            same_out(*old(conn), *conn),
        ensures
            received(*conn) == Seq::<u8>::empty(),
        decreases received(*conn).len(),
    {
        let ghost waiting = received(*conn);
        let ghost before = sink@;
        let read = read_plain(conn, &mut buf);
        let n: usize = match read {
            Some(n) => n,
            None => 0,
        };
        if n == 0 {
            break;
        }
        sink.extend_from_slice(vstd::slice::slice_subrange(buf.as_slice(), 0, n));
        proof {
            assert(sink@ =~= before + waiting.take(n as int));
            assert(waiting.take(n as int) + waiting.skip(n as int) =~= waiting);
            assert(sink@ + received(*conn) =~= before + waiting);
        }
    }
}

/// How far a connection has been fed.
#[derive(Debug, Clone, Copy, PartialEq, Eq, Structural)]
pub enum Feed {
    /// All is fed that the connection will take.
    Done,
    /// There is more to feed from this position on; whether the connection was full.
    More(usize, bool),
    /// The connection stays full.
    Stuck,
}

/// What follows when, of `total` bytes of which `off` are fed, the connection took some more
/// or was full; `full` says whether it was full the time before. One that takes none has had
/// its end announced. One that is full is drained and fed again; where that made no room,
/// doing it once more would not either.
pub fn feed_step(off: usize, total: usize, took: Option<usize>, full: bool) -> (r: Feed)
    requires
        off <= total,
        took matches Some(n) ==> n <= total - off,
    ensures
        r == (match took {
            Some(n) => if n == 0 || off + n == total {
                Feed::Done
            } else {
                Feed::More((off + n) as usize, false)
            },
            None => if full {
                Feed::Stuck
            } else {
                Feed::More(off, true)
            },
        }),
{
    match took {
        Some(n) => if n == 0 || n == total - off {
            Feed::Done
        } else {
            Feed::More(off + n, false)
        },
        None => if full {
            Feed::Stuck
        } else {
            Feed::More(off, true)
        },
    }
}

/// How moving bytes through a connection ended.
#[derive(Debug, Clone, Copy, PartialEq, Eq, Structural)]
pub enum Pumped {
    /// All of them went through.
    Done,
    /// The connection takes no more of them.
    Stuck,
    /// The connection failed.
    Failed,
}

/// What feeding comes to once what was fed is processed, `ok` saying whether that succeeded:
/// how it ended, or `None` where there is more to feed.
pub fn after_processing(step: Feed, ok: bool) -> (r: Option<Pumped>)
    ensures
        r == (if !ok {
            Some(Pumped::Failed)
        } else {
            match step {
                Feed::Done => Some(Pumped::Done),
                Feed::Stuck => Some(Pumped::Stuck),
                Feed::More(_, _) => None,
            }
        }),
{
    if !ok {
        return Some(Pumped::Failed);
    }
    match step {
        Feed::Done => Some(Pumped::Done),
        Feed::Stuck => Some(Pumped::Stuck),
        Feed::More(_, _) => None,
    }
}

/// Feeds `raw` to the connection, decrypting on the way, and moves the plaintext to the end
/// of `sink`. What arrives after the peer announced its end is left out. It fails exactly
/// where the connection has met a fatal error.
pub fn decrypt(conn: &mut Connection, raw: &[u8], sink: &mut Vec<u8>) -> (r: Pumped)
    ensures
        fed(*old(conn)).is_prefix_of(fed(*final(conn))),
        fed(*final(conn)).is_prefix_of(fed(*old(conn)) + raw@),
        r == Pumped::Done ==> fed(*final(conn)) == fed(*old(conn)) + raw@ || ended(*final(conn)),
        moved_in(*old(conn), old(sink)@, *final(conn), final(sink)@),
        r != Pumped::Failed ==> received(*final(conn)) == Seq::<u8>::empty(),
        r != Pumped::Failed ==> processed(*final(conn)) == fed(*final(conn)),
        r == Pumped::Stuck ==> jammed(*old(conn), raw@),
        (r == Pumped::Failed) == broken(*final(conn)),
        broken(*old(conn)) ==> r == Pumped::Failed,
        ended(*old(conn)) ==> ended(*final(conn)),
        handed(*final(conn)) == handed(*old(conn)),
        sealed_more(*old(conn), *final(conn)),
{
    let mut off: usize = 0;
    let mut full = false;
    loop
        invariant
            off <= raw@.len(),
            off > 0 || full ==> !broken(*old(conn)) && !broken(*conn),
            off == 0 && !full ==> broken(*conn) == broken(*old(conn)),
            full ==> processed(*conn) == fed(*conn) && received(*conn) == Seq::<u8>::empty(),
            fed(*conn) == fed(*old(conn)) + raw@.take(off as int),
            moved_in(*old(conn), old(sink)@, *conn, sink@),
            ended(*old(conn)) ==> ended(*conn),
            handed(*conn) == handed(*old(conn)),
            sealed_more(*old(conn), *conn),
        decreases raw@.len() - off, if full {
            0int
        } else {
            1int
        },
    {
        let ghost c0 = *conn;
        let took = feed_tls(conn, vstd::slice::slice_subrange(raw, off, raw.len()));
        let ghost c1 = *conn;
        let step = feed_step(off, raw.len(), took, full);
        let ok = process_tls(conn);
        let ghost c2 = *conn;
        proof {
            let rest = raw@.subrange(off as int, raw@.len() as int);
            assert(took == taken(c0, rest));
            if let Some(n) = took {
                assert(raw@.take(off as int) + rest.take(n as int) =~= raw@.take(off + n));
                assert(fed(c2) =~= fed(*old(conn)) + raw@.take(off + n));
                assert(raw@.take(raw@.len() as int) =~= raw@);
            }
            lemma_grown(opened(*old(conn)), opened(c1), opened(c2));
            lemma_grown(sealed(*old(conn)), sealed(c1), sealed(c2));
            assert(sendable(c2) =~= sendable(*old(conn)) + gained(sealed(*old(conn)), sealed(c2)));
            assert(sink@ + received(c2) =~= (sink@ + received(c1)) + gained(
                opened(c1),
                opened(c2),
            ));
            assert(sink@ + received(c2) =~= old(sink)@ + received(*old(conn)) + gained(
                opened(*old(conn)),
                opened(c2),
            ));
        }
        if ok {
            let ghost before = sink@;
            drain_reader(conn, sink);
            assert(sink@ + received(*conn) =~= before + received(c2));
        }
        if let Some(end) = after_processing(step, ok) {
            return end;
        }
        if let Feed::More(next, now_full) = step {
            off = next;
            full = now_full;
        }
    }
}

/// Decrypts what the connection has taken in and moves the plaintext to the end of `sink`:
/// whether decrypting succeeded, which it does unless the connection has met a fatal error.
pub fn open_fed(conn: &mut Connection, sink: &mut Vec<u8>) -> (ok: bool)
    ensures
        ok == !broken(*final(conn)),
        broken(*old(conn)) ==> !ok,
        ok ==> processed(*final(conn)) == fed(*final(conn)),
        ok ==> received(*final(conn)) == Seq::<u8>::empty(),
        moved_in(*old(conn), old(sink)@, *final(conn), final(sink)@),
        fed(*final(conn)) == fed(*old(conn)),
        ended(*old(conn)) ==> ended(*final(conn)),
        handed(*final(conn)) == handed(*old(conn)),
        sealed_more(*old(conn), *final(conn)),
{
    let ok = process_tls(conn);
    let ghost waiting = received(*conn);
    assert(sink@ + waiting =~= old(sink)@ + received(*old(conn)) + gained(
        opened(*old(conn)),
        opened(*conn),
    ));
    if ok {
        drain_reader(conn, sink);
        assert(sink@ + received(*conn) =~= old(sink)@ + waiting);
    }
    ok
}

// Outward ---------------------------------------------------------------------

/// Moves all the record bytes that wait to the end of `cipher`. Returns `true`: taking them
/// into memory does not fail.
pub fn flush_tls(conn: &mut Connection, cipher: &mut Vec<u8>) -> (ok: bool)
    ensures
        ok,
        final(cipher)@ == old(cipher)@ + sendable(*old(conn)),
        sendable(*final(conn)) == Seq::<u8>::empty(),
        handed(*final(conn)) == handed(*old(conn)),
        sealed(*final(conn)) == sealed(*old(conn)),
        broken(*final(conn)) == broken(*old(conn)),
        same_in(*old(conn), *final(conn)),
{
    while wants_write(conn)
        invariant
            cipher@ + sendable(*conn) == old(cipher)@ + sendable(*old(conn)),
            handed(*conn) == handed(*old(conn)),
            sealed(*conn) == sealed(*old(conn)),
            broken(*conn) == broken(*old(conn)),
            same_in(*old(conn), *conn),
        decreases sendable(*conn).len(),
    {
        let ghost waiting = sendable(*conn);
        let ghost before = cipher@;
        match take_tls(conn, cipher) {
            Some(n) => {
                proof {
                    assert(waiting.take(n as int) + waiting.skip(n as int) =~= waiting);
                    assert(cipher@ + sendable(*conn) =~= before + waiting);
                }
            },
            None => {
                return false;
            },
        }
    }
    assert(sendable(*conn) =~= Seq::<u8>::empty());
    true
}

/// What follows when, of `total` bytes of which `off` are handed over, the connection accepted
/// `took` more; `full` says whether it accepted none the time before. One that accepts none is
/// flushed and asked again; where that made no room, doing it once more would not either.
pub fn write_step(off: usize, total: usize, took: usize, full: bool) -> (r: Feed)
    requires
        off <= total,
        took <= total - off,
    ensures
        r == (if off + took == total {
            Feed::Done
        } else if took > 0 {
            Feed::More((off + took) as usize, false)
        } else if full {
            Feed::Stuck
        } else {
            Feed::More(off, true)
        }),
{
    if took == total - off {
        Feed::Done
    } else if took > 0 {
        Feed::More(off + took, false)
    } else if full {
        Feed::Stuck
    } else {
        Feed::More(off, true)
    }
}

/// The bytes of a frame, none where there is none.
pub open spec fn bytes_of(frame: Option<&[u8]>) -> Seq<u8> {
    match frame {
        Some(data) => data@,
        None => Seq::empty(),
    }
}

/// Hands `data` to the connection for sending, and moves all the record bytes that come of
/// it, and those that waited, to the end of `cipher`. The connection holds a limited amount
/// of records, so it is flushed as it goes.
fn encrypt(conn: &mut Connection, data: &[u8], cipher: &mut Vec<u8>) -> (r: Pumped)
    ensures
        handed(*old(conn)).is_prefix_of(handed(*final(conn))),
        handed(*final(conn)).is_prefix_of(handed(*old(conn)) + data@),
        r == Pumped::Done ==> handed(*final(conn)) == handed(*old(conn)) + data@,
        r != Pumped::Failed ==> moved_out(*old(conn), old(cipher)@, *final(conn), final(cipher)@),
        (r == Pumped::Failed) == broken(*old(conn)),
        broken(*final(conn)) == broken(*old(conn)),
        r == Pumped::Failed ==> refused(*old(conn), data@),
        r == Pumped::Stuck ==> stalled(*old(conn), data@),
        r != Pumped::Done ==> spent(*old(conn), data@),
        same_in(*old(conn), *final(conn)),
{
    let mut off: usize = 0;
    let mut full = false;
    assert(data@.take(0) =~= Seq::<u8>::empty());
    assert(gained(sealed(*conn), sealed(*conn)) =~= Seq::<u8>::empty());
    loop
        invariant
            off <= data@.len(),
            full ==> sendable(*conn) == Seq::<u8>::empty(),
            off > 0 || full ==> !broken(*conn),
            broken(*conn) == broken(*old(conn)),
            handed(*conn) == handed(*old(conn)) + data@.take(off as int),
            sealed(*old(conn)).is_prefix_of(sealed(*conn)),
            cipher@ + sendable(*conn) == old(cipher)@ + sendable(*old(conn)) + gained(
                sealed(*old(conn)),
                sealed(*conn),
            ),
            same_in(*old(conn), *conn),
        decreases data@.len() - off, if full {
            0int
        } else {
            1int
        },
    {
        let ghost c0 = *conn;
        let took = write_plain(conn, vstd::slice::slice_subrange(data, off, data.len()));
        let ghost c1 = *conn;
        proof {
            lemma_grown(sealed(*old(conn)), sealed(c0), sealed(c1));
            assert(cipher@ + sendable(c1) =~= (cipher@ + sendable(c0)) + gained(
                sealed(c0),
                sealed(c1),
            ));
            assert(cipher@ + sendable(c1) =~= old(cipher)@ + sendable(*old(conn)) + gained(
                sealed(*old(conn)),
                sealed(c1),
            ));
            let rest = data@.subrange(off as int, data@.len() as int);
            if let Some(n) = took {
                assert(data@.take(off as int) + rest.take(n as int) =~= data@.take(off + n));
                assert(handed(c1) =~= handed(*old(conn)) + data@.take(off + n));
                assert(data@.take(data@.len() as int) =~= data@);
            }
            assert(took == accepted(c0, data@.subrange(off as int, data@.len() as int)));
        }
        let n: usize = match took {
            Some(n) => n,
            None => {
                return Pumped::Failed;
            },
        };
        let ghost before = cipher@;
        flush_tls(conn, cipher);
        assert(cipher@ =~= before + sendable(c1));
        match write_step(off, data.len(), n, full) {
            Feed::Done => {
                return Pumped::Done;
            },
            Feed::Stuck => {
                return Pumped::Stuck;
            },
            Feed::More(next, now_full) => {
                off = next;
                full = now_full;
            },
        }
    }
}

/// Hands `frame`, if there is one, to the connection for sending, and moves all the record
/// bytes that come of it, and those that waited, to the end of `cipher`. It fails where the
/// connection refuses, and gets stuck where it accepts nothing though nothing is left to
/// flush.
pub fn write_pending(conn: &mut Connection, frame: Option<&[u8]>, cipher: &mut Vec<u8>) -> (r:
    Pumped)
    ensures
        handed(*old(conn)).is_prefix_of(handed(*final(conn))),
        handed(*final(conn)).is_prefix_of(handed(*old(conn)) + bytes_of(frame)),
        r == Pumped::Done ==> handed(*final(conn)) == handed(*old(conn)) + bytes_of(frame),
        r != Pumped::Failed ==> moved_out(*old(conn), old(cipher)@, *final(conn), final(cipher)@),
        bytes_of(frame).len() == 0 ==> r == Pumped::Done,
        (r == Pumped::Failed) == (broken(*old(conn)) && bytes_of(frame).len() > 0),
        broken(*final(conn)) == broken(*old(conn)),
        r == Pumped::Failed ==> refused(*old(conn), bytes_of(frame)),
        r == Pumped::Stuck ==> stalled(*old(conn), bytes_of(frame)),
        r != Pumped::Done ==> spent(*old(conn), bytes_of(frame)),
        same_in(*old(conn), *final(conn)),
{
    if let Some(data) = frame {
        if data.len() > 0 {
            return encrypt(conn, data, cipher);
        }
    }
    assert(gained(sealed(*conn), sealed(*conn)) =~= Seq::<u8>::empty());
    assert(bytes_of(frame) =~= Seq::<u8>::empty());
    flush_tls(conn, cipher);
    Pumped::Done
}

/// What follows when, of `total` bytes of which `off` are handed over, the connection accepted
/// `took` more or refused. One that accepts none is not asked again.
pub fn offer_step(off: usize, total: usize, took: Option<usize>) -> (r: Feed)
    requires
        off < total,
        took matches Some(n) ==> n <= total - off,
    ensures
        r == (match took {
            Some(n) => if off + n == total {
                Feed::Done
            } else if n > 0 {
                Feed::More((off + n) as usize, false)
            } else {
                Feed::Stuck
            },
            None => Feed::Stuck,
        }),
{
    match took {
        Some(n) => if n == total - off {
            Feed::Done
        } else if n > 0 {
            Feed::More(off + n, false)
        } else {
            Feed::Stuck
        },
        None => Feed::Stuck,
    }
}

/// Hands one envelope, in its frame, to the connection, as much of it as the connection
/// accepts: whether that is all of it. What the connection accepts of the whole frame at once
/// is handed over at least, and nothing is where it accepts none. Nothing is flushed.
pub fn enqueue(conn: &mut Connection, envelope: &[u8]) -> (all: bool)
    ensures
        handed(*old(conn)).is_prefix_of(handed(*final(conn))),
        handed(*final(conn)).is_prefix_of(handed(*old(conn)) + framed(envelope@)),
        all == (handed(*final(conn)) == handed(*old(conn)) + framed(envelope@)),
        !all ==> spent(*old(conn), framed(envelope@)),
        accepted(*old(conn), framed(envelope@)) is None <==> broken(*old(conn)),
        broken(*final(conn)) == broken(*old(conn)),
        match accepted(*old(conn), framed(envelope@)) {
            Some(n) => {
                &&& n <= framed(envelope@).len()
                &&& (handed(*old(conn)) + framed(envelope@).take(n as int)).is_prefix_of(
                    handed(*final(conn)),
                )
                &&& n == framed(envelope@).len() ==> all
                &&& n == 0 ==> handed(*final(conn)) == handed(*old(conn))
            },
            None => handed(*final(conn)) == handed(*old(conn)),
        },
        sealed_more(*old(conn), *final(conn)),
        same_in(*old(conn), *final(conn)),
{
    let mut frame: Vec<u8> = Vec::new();
    write_frame(&mut frame, envelope);
    assert(frame@ =~= framed(envelope@));
    let mut off: usize = 0;
    let ghost whole = accepted(*conn, frame@);
    proof {
        assert(frame@.take(0) =~= Seq::<u8>::empty());
        assert(gained(sealed(*conn), sealed(*conn)) =~= Seq::<u8>::empty());
        assert(frame@.subrange(0, frame@.len() as int) =~= frame@);
        assert(frame@.take(frame@.len() as int) =~= frame@);
    }
    loop
        invariant
            off < frame@.len(),
            frame@ == framed(envelope@),
            frame@.take(frame@.len() as int) == frame@,
            frame@.subrange(0, frame@.len() as int) == frame@,
            whole == accepted(*old(conn), frame@),
            broken(*conn) == broken(*old(conn)),
            off > 0 ==> !broken(*old(conn)),
            off == 0 ==> *conn == *old(conn),
            off > 0 ==> (whole matches Some(n) && 0 < n <= off),
            handed(*conn) == handed(*old(conn)) + frame@.take(off as int),
            sealed_more(*old(conn), *conn),
            same_in(*old(conn), *conn),
        decreases frame@.len() - off,
    {
        let ghost c0 = *conn;
        let took = write_plain(
            conn,
            vstd::slice::slice_subrange(frame.as_slice(), off, frame.len()),
        );
        proof {
            lemma_grown(sealed(*old(conn)), sealed(c0), sealed(*conn));
            assert(sendable(*conn) =~= sendable(*old(conn)) + gained(
                sealed(*old(conn)),
                sealed(*conn),
            ));
            let rest = frame@.subrange(off as int, frame@.len() as int);
            if let Some(n) = took {
                assert(frame@.take(off as int) + rest.take(n as int) =~= frame@.take(off + n));
                assert(handed(*conn) =~= handed(*old(conn)) + frame@.take(off + n));
            }
        }
        match offer_step(off, frame.len(), took) {
            Feed::Done => {
                return true;
            },
            Feed::Stuck => {
                assert(handed(*conn) =~= handed(*old(conn)) + frame@.take(off as int));
                assert(handed(*conn).len() < (handed(*old(conn)) + framed(envelope@)).len());
                return false;
            },
            Feed::More(next, _) => {
                off = next;
            },
        }
    }
}

} // verus!
