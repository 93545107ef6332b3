//! What the broker guarantees, over any number of commands.

use vstd::prelude::*;
use crate::be::{
    be, lemma_be_bound, lemma_be_injective, lemma_be_to_be, lemma_to_be_len, pow256, to_be,
};
use crate::broker::{
    connected, disconnected, id_of, is_reliable, issued, key, picked, received, routed, sent,
    sent_all, stepped, target, timed_out, transmitted, wrap, Act, BrokerState, Command, InFlight,
    MAX_RETRIES,
};
use crate::buf::bytes_view;
use crate::config::{DeliveryGuarantee, SendMode};
use crate::protocol::{decoded, encoded, lemma_decode_encode, Message};

verus! {

// What is in flight ----------------------------------------------------------

/// Identities have their width and none is connected twice; whatever is in flight was sent
/// reliably, with no more retries than allowed, under an id of this broker.
pub open spec fn sound(s: BrokerState) -> bool {
    &&& s.salt.len() == 8
    &&& s.next_id <= u64::MAX
    &&& forall|i: int| 0 <= i < s.peers.len() ==> (#[trigger] s.peers[i]).len() == 16
    &&& s.peers.no_duplicates()
    &&& forall|k: u128| #[trigger]
        s.pending.contains_key(k) ==> {
            &&& is_reliable(s, s.pending[k].to)
            &&& s.pending[k].retries <= MAX_RETRIES
            &&& exists|c: nat| c <= u64::MAX && k == key(#[trigger] id_of(s.salt, c))
        }
}

/// A broker with nobody connected and nothing in flight is sound.
pub proof fn lemma_new_sound(s: BrokerState)
    requires
        s.salt.len() == 8,
        s.next_id <= u64::MAX,
        s.peers.len() == 0,
        s.pending == Map::<u128, InFlight>::empty(),
    ensures
        sound(s),
{
}

proof fn lemma_transmitted_sound(
    s: BrokerState,
    to: Option<Seq<u8>>,
    payload: Seq<u8>,
    retries: nat,
)
    requires
        sound(s),
        retries <= MAX_RETRIES,
    ensures
        sound(transmitted(s, to, payload, retries).0),
        transmitted(s, to, payload, retries).0.peers == s.peers,
{
    let after = transmitted(s, to, payload, retries).0;
    let msg_id = id_of(s.salt, s.next_id);
    assert forall|k: u128| #[trigger] after.pending.contains_key(k) implies {
        &&& is_reliable(after, after.pending[k].to)
        &&& after.pending[k].retries <= MAX_RETRIES
        &&& exists|c: nat| c <= u64::MAX && k == key(#[trigger] id_of(after.salt, c))
    } by {
        if is_reliable(s, to) && k == key(msg_id) {
            assert(k == key(id_of(after.salt, s.next_id)));
        } else {
            assert(s.pending.contains_key(k));
            assert(is_reliable(s, s.pending[k].to));
            let c = choose|c: nat| c <= u64::MAX && k == key(#[trigger] id_of(s.salt, c));
            assert(k == key(id_of(after.salt, c)));
        }
    }
}

/// Sending keeps the broker sound.
pub proof fn lemma_sent_sound(s: BrokerState, to: Option<Seq<u8>>, payload: Seq<u8>)
    requires
        sound(s),
    ensures
        sound(sent(s, to, payload).0),
        sent(s, to, payload).0.peers == s.peers,
{
    if s.peers.len() == 0 {
        lemma_same_flight(s, sent(s, to, payload).0);
    } else {
        lemma_transmitted_sound(s, to, payload, MAX_RETRIES as nat);
    }
}

/// A state with nothing in flight that was not before is sound, if its peers are.
proof fn lemma_same_flight(s: BrokerState, t: BrokerState)
    requires
        sound(s),
        t.salt == s.salt,
        t.mode == s.mode,
        t.guarantee == s.guarantee,
        t.next_id == s.next_id,
        t.pending.submap_of(s.pending),
        forall|i: int| 0 <= i < t.peers.len() ==> (#[trigger] t.peers[i]).len() == 16,
        t.peers.no_duplicates(),
    ensures
        sound(t),
{
    assert forall|k: u128| #[trigger] t.pending.contains_key(k) implies {
        &&& is_reliable(t, t.pending[k].to)
        &&& t.pending[k].retries <= MAX_RETRIES
        &&& exists|c: nat| c <= u64::MAX && k == key(#[trigger] id_of(t.salt, c))
    } by {
        assert(s.pending.contains_key(k));
        assert(is_reliable(s, s.pending[k].to));
        let c = choose|c: nat| c <= u64::MAX && k == key(#[trigger] id_of(s.salt, c));
        assert(k == key(id_of(t.salt, c)));
    }
}

proof fn lemma_sent_all_sound(s: BrokerState, items: Seq<(Option<Seq<u8>>, Seq<u8>)>)
    requires
        sound(s),
    ensures
        sound(sent_all(s, items).0),
        sent_all(s, items).0.peers == s.peers,
    decreases items.len(),
{
    if items.len() > 0 {
        lemma_sent_all_sound(s, items.drop_last());
        let before = sent_all(s, items.drop_last()).0;
        lemma_sent_sound(before, items.last().0, items.last().1);
    }
}

/// A connection keeps the broker sound, and the peer is connected behind it.
pub proof fn lemma_connected_sound(s: BrokerState, id: Seq<u8>)
    requires
        sound(s),
        id.len() == 16,
    ensures
        sound(connected(s, id).0),
        connected(s, id).0.peers.contains(id),
{
    if !s.peers.contains(id) {
        let joined = BrokerState { peers: s.peers.push(id), buffer: Seq::empty(), ..s };
        assert forall|i: int| 0 <= i < joined.peers.len() implies (
        #[trigger] joined.peers[i]).len() == 16 by {
            if i < s.peers.len() {
                assert(joined.peers[i] == s.peers[i]);
            }
        }
        assert(joined.peers.no_duplicates()) by {
            assert forall|i: int, j: int|
                0 <= i < joined.peers.len() && 0 <= j < joined.peers.len() && i
                    != j implies joined.peers[i] != joined.peers[j] by {
                if i < s.peers.len() && j < s.peers.len() {
                    assert(joined.peers[i] == s.peers[i]);
                    assert(joined.peers[j] == s.peers[j]);
                } else if i < s.peers.len() {
                    assert(s.peers.contains(s.peers[i]));
                } else {
                    assert(s.peers.contains(s.peers[j]));
                }
            }
        }
        lemma_same_flight(s, joined);
        lemma_sent_all_sound(joined, s.buffer);
        assert(joined.peers[s.peers.len() as int] == id);
    }
}

/// A disconnection keeps the broker sound, and the peer is not connected behind it.
pub proof fn lemma_disconnected_sound(s: BrokerState, id: Seq<u8>)
    requires
        sound(s),
    ensures
        sound(disconnected(s, id)),
        !disconnected(s, id).peers.contains(id),
{
    if s.peers.contains(id) {
        let at = s.peers.index_of(id);
        let t = disconnected(s, id);
        assert(t.peers == s.peers.remove(at));
        assert forall|i: int| 0 <= i < t.peers.len() implies (#[trigger] t.peers[i]).len() == 16
            && t.peers[i] != id by {
            let j = if i < at {
                i
            } else {
                i + 1
            };
            assert(t.peers[i] == s.peers[j]);
            assert(s.peers[at] == id);
        }
        assert(t.peers.no_duplicates()) by {
            assert forall|i: int, j: int|
                0 <= i < t.peers.len() && 0 <= j < t.peers.len() && i != j implies t.peers[i]
                != t.peers[j] by {
                let a = if i < at {
                    i
                } else {
                    i + 1
                };
                let b = if j < at {
                    j
                } else {
                    j + 1
                };
                assert(t.peers[i] == s.peers[a]);
                assert(t.peers[j] == s.peers[b]);
            }
        }
        lemma_same_flight(s, t);
    }
}

/// What arrives keeps the broker sound.
pub proof fn lemma_received_sound(s: BrokerState, from: Seq<u8>, m: Message)
    requires
        sound(s),
    ensures
        sound(received(s, from, m).0),
{
    lemma_same_flight(s, received(s, from, m).0);
}

/// A timeout keeps the broker sound.
pub proof fn lemma_timed_out_sound(s: BrokerState, msg_id: Seq<u8>)
    requires
        sound(s),
    ensures
        sound(timed_out(s, msg_id).0),
{
    let k = key(msg_id);
    if s.pending.contains_key(k) {
        let m = s.pending[k];
        let without = BrokerState { pending: s.pending.remove(k), ..s };
        lemma_same_flight(s, without);
        if m.retries > 0 && s.peers.len() > 0 {
            lemma_transmitted_sound(without, m.to, m.payload, (m.retries - 1) as nat);
        } else {
            lemma_same_flight(s, timed_out(s, msg_id).0);
        }
    }
}

/// The state after some commands, up to the one that stops the broker.
pub open spec fn ran<W>(s: BrokerState, commands: Seq<Command<W>>) -> BrokerState
    decreases commands.len(),
{
    if commands.len() == 0 {
        s
    } else {
        match stepped(s, commands[0]) {
            None => s,
            Some((after, acts)) => ran(after, commands.skip(1)),
        }
    }
}

/// Whatever commands a sound broker is given, in whatever order, it stays sound.
pub proof fn lemma_always_sound<W>(s: BrokerState, commands: Seq<Command<W>>)
    requires
        sound(s),
    ensures
        sound(ran(s, commands)),
    decreases commands.len(),
{
    if commands.len() > 0 {
        match commands[0] {
            Command::Send { identity, data } => {
                lemma_sent_sound(s, target(identity), bytes_view(data));
            },
            Command::ConnectionUp { identity, writer } => {
                lemma_connected_sound(s, identity@);
            },
            Command::ConnectionDown { identity } => {
                lemma_disconnected_sound(s, identity@);
            },
            Command::Received { identity, envelope } => {
                lemma_received_sound(s, identity@, envelope@);
            },
            Command::ResendTimeout { msg_id } => {
                lemma_timed_out_sound(s, msg_id@);
            },
            Command::Close => {},
        }
        if let Some((after, acts)) = stepped(s, commands[0]) {
            lemma_always_sound(after, commands.skip(1));
        }
    }
}

// The end ----------------------------------------------------------------------

/// How many of the commands queued for it a broker takes.
pub open spec fn taken_of<W>(s: BrokerState, queue: Seq<Command<W>>) -> nat
    decreases queue.len(),
{
    if queue.len() == 0 {
        0
    } else {
        match stepped(s, queue[0]) {
            Some((after, acts)) => 1 + taken_of(after, queue.skip(1)),
            None => 0,
        }
    }
}

/// What a broker does about the commands queued for it.
pub open spec fn acts_for<W>(s: BrokerState, queue: Seq<Command<W>>) -> Seq<Act>
    decreases queue.len(),
{
    if queue.len() == 0 {
        Seq::empty()
    } else {
        match stepped(s, queue[0]) {
            Some((after, acts)) => acts + acts_for(after, queue.skip(1)),
            None => Seq::empty(),
        }
    }
}

/// A broker stops at the first close: it takes nothing queued behind it, and all that it ever
/// does, the messages that it delivers among it, comes of what was queued before.
pub proof fn lemma_nothing_behind_close<W>(
    s: BrokerState,
    before: Seq<Command<W>>,
    behind: Seq<Command<W>>,
)
    ensures
        taken_of(s, before + seq![Command::Close] + behind) <= before.len(),
        acts_for(s, before + seq![Command::Close] + behind) == acts_for(s, before),
    decreases before.len(),
{
    let queue = before + seq![Command::Close] + behind;
    if before.len() > 0 {
        assert(queue[0] == before[0]);
        if let Some((after, acts)) = stepped(s, before[0]) {
            assert(queue.skip(1) =~= before.skip(1) + seq![Command::Close] + behind);
            lemma_nothing_behind_close(after, before.skip(1), behind);
        }
    } else {
        assert(queue[0] is Close);
    }
}

// Message ids ----------------------------------------------------------------

/// Two counters give two ids, and two ids stand for two numbers.
pub proof fn lemma_ids_differ(salt: Seq<u8>, a: nat, b: nat)
    requires
        salt.len() == 8,
        a <= u64::MAX,
        b <= u64::MAX,
    ensures
        id_of(salt, a).len() == 16,
        a != b ==> id_of(salt, a) != id_of(salt, b),
        a != b ==> key(id_of(salt, a)) != key(id_of(salt, b)),
{
    reveal_with_fuel(pow256, 17);
    lemma_to_be_len(a, 8);
    lemma_to_be_len(b, 8);
    lemma_be_to_be(a, 8);
    lemma_be_to_be(b, 8);
    let x = id_of(salt, a);
    let y = id_of(salt, b);
    assert(x.skip(8) =~= to_be(a, 8));
    assert(y.skip(8) =~= to_be(b, 8));
    lemma_be_bound(x);
    lemma_be_bound(y);
    if key(x) == key(y) {
        lemma_be_injective(x, y);
    }
}

/// The first `n` message ids from `s` on, and the state behind them.
pub open spec fn issued_all(s: BrokerState, n: nat) -> (BrokerState, Seq<Seq<u8>>)
    decreases n,
{
    if n == 0 {
        (s, Seq::empty())
    } else {
        let (before, ids) = issued_all(s, (n - 1) as nat);
        let (after, id) = issued(before);
        (after, ids.push(id))
    }
}

/// Successive message ids begin with the salt, count up by one behind it, and differ, as long
/// as the counter does not come round. Of a new broker, whose counter stands at zero, the
/// first count is zero.
pub proof fn lemma_ids_count_up(s: BrokerState, n: nat)
    requires
        s.salt.len() == 8,
        s.next_id + n <= u64::MAX + 1,
    ensures
        issued_all(s, n).1.len() == n,
        forall|i: int|
            0 <= i < n ==> {
                &&& (#[trigger] issued_all(s, n).1[i]).len() == 16
                &&& issued_all(s, n).1[i].take(8) == s.salt
                &&& be(issued_all(s, n).1[i].skip(8)) == s.next_id + i
            },
        issued_all(s, n).1.no_duplicates(),
{
    lemma_issued(s, n);
    let ids = issued_all(s, n).1;
    reveal_with_fuel(pow256, 9);
    assert forall|i: int| 0 <= i < n implies {
        &&& (#[trigger] ids[i]).len() == 16
        &&& ids[i].take(8) == s.salt
        &&& be(ids[i].skip(8)) == s.next_id + i
    } by {
        let c = (s.next_id + i) as nat;
        lemma_to_be_len(c, 8);
        lemma_be_to_be(c, 8);
        assert(ids[i].take(8) =~= s.salt);
        assert(ids[i].skip(8) =~= to_be(c, 8));
    }
    assert forall|i: int, j: int| 0 <= i < n && 0 <= j < n && i != j implies ids[i] != ids[j] by {
        lemma_ids_differ(s.salt, (s.next_id + i) as nat, (s.next_id + j) as nat);
    }
}

proof fn lemma_issued(s: BrokerState, n: nat)
    requires
        s.next_id + n <= u64::MAX + 1,
    ensures
        issued_all(s, n).1 == Seq::new(n, |i: int| id_of(s.salt, (s.next_id + i) as nat)),
        issued_all(s, n).0.salt == s.salt,
        s.next_id + n <= u64::MAX ==> issued_all(s, n).0.next_id == s.next_id + n,
    decreases n,
{
    let want = Seq::new(n, |i: int| id_of(s.salt, (s.next_id + i) as nat));
    if n > 0 {
        lemma_issued(s, (n - 1) as nat);
    }
    assert(issued_all(s, n).1 =~= want);
}

/// The counter has not come round: every id in flight was given out before the next one.
pub open spec fn counted(s: BrokerState) -> bool {
    forall|k: u128| #[trigger]
        s.pending.contains_key(k) ==> exists|c: nat|
            c < s.next_id && k == key(#[trigger] id_of(s.salt, c))
}

/// The next message id is not in use.
pub proof fn lemma_fresh_id(s: BrokerState)
    requires
        s.salt.len() == 8,
        s.next_id <= u64::MAX,
        counted(s),
    ensures
        !s.pending.contains_key(key(id_of(s.salt, s.next_id))),
{
    let k = key(id_of(s.salt, s.next_id));
    if s.pending.contains_key(k) {
        let c = choose|c: nat| c < s.next_id && k == key(#[trigger] id_of(s.salt, c));
        lemma_ids_differ(s.salt, c, s.next_id);
    }
}

/// The ids in `t` were all in flight in `s`, or given out since.
proof fn lemma_counted_from(s: BrokerState, t: BrokerState)
    requires
        counted(s),
        t.salt == s.salt,
        t.next_id >= s.next_id,
        forall|k: u128| #[trigger]
            t.pending.contains_key(k) ==> s.pending.contains_key(k) || (t.next_id > s.next_id && k
                == key(id_of(s.salt, s.next_id))),
    ensures
        counted(t),
{
    assert forall|k: u128| #[trigger] t.pending.contains_key(k) implies exists|c: nat|
        c < t.next_id && k == key(#[trigger] id_of(t.salt, c)) by {
        if s.pending.contains_key(k) {
            let c = choose|c: nat| c < s.next_id && k == key(#[trigger] id_of(s.salt, c));
            assert(k == key(id_of(t.salt, c)));
        } else {
            assert(k == key(id_of(t.salt, s.next_id)));
        }
    }
}

proof fn lemma_sent_all_counted(s: BrokerState, items: Seq<(Option<Seq<u8>>, Seq<u8>)>)
    requires
        counted(s),
        s.next_id + items.len() <= u64::MAX,
    ensures
        counted(sent_all(s, items).0),
        sent_all(s, items).0.next_id <= s.next_id + items.len(),
        sent_all(s, items).0.salt == s.salt,
    decreases items.len(),
{
    if items.len() > 0 {
        lemma_sent_all_counted(s, items.drop_last());
        let before = sent_all(s, items.drop_last()).0;
        lemma_counted_from(before, sent(before, items.last().0, items.last().1).0);
    }
}

/// Until the counter comes round, no command makes it give out an id that is in flight.
pub proof fn lemma_step_counted<W>(s: BrokerState, command: Command<W>)
    requires
        counted(s),
        s.next_id < u64::MAX,
        s.next_id + s.buffer.len() <= u64::MAX,
    ensures
        stepped(s, command) matches Some((after, acts)) ==> counted(after),
{
    match command {
        Command::ConnectionUp { identity, writer } => {
            let id = identity@;
            let joined = BrokerState { peers: s.peers.push(id), buffer: Seq::empty(), ..s };
            lemma_counted_from(s, joined);
            lemma_sent_all_counted(joined, s.buffer);
        },
        _ => {
            if let Some((after, acts)) = stepped(s, command) {
                lemma_counted_from(s, after);
            }
        },
    }
}

// Peers ----------------------------------------------------------------------

/// A peer whose identity is connected already is turned away, and nothing else changes.
pub proof fn lemma_duplicate_refused(s: BrokerState, id: Seq<u8>)
    requires
        s.peers.contains(id),
    ensures
        connected(s, id) == (s, seq![Act::Accept { accepted: false }]),
{
}

/// The peers that some acts transmit to, in order.
pub open spec fn targets(acts: Seq<Act>) -> Seq<Seq<u8>>
    decreases acts.len(),
{
    if acts.len() == 0 {
        Seq::empty()
    } else {
        targets(acts.drop_last()) + match acts.last() {
            Act::Transmit { to, envelope } => seq![to],
            _ => Seq::empty(),
        }
    }
}

/// The application data that some acts transmit, with its receiver, in order.
pub open spec fn carried(acts: Seq<Act>) -> Seq<(Seq<u8>, Seq<u8>)>
    decreases acts.len(),
{
    if acts.len() == 0 {
        Seq::empty()
    } else {
        carried(acts.drop_last()) + match acts.last() {
            Act::Transmit { to, envelope } => match decoded(envelope) {
                Some(Message::Data { payload }) => seq![(to, payload)],
                Some(Message::DataReq { msg_id, payload }) => seq![(to, payload)],
                _ => Seq::empty(),
            },
            _ => Seq::empty(),
        }
    }
}

proof fn lemma_targets_add(a: Seq<Act>, b: Seq<Act>)
    ensures
        targets(a + b) == targets(a) + targets(b),
    decreases b.len(),
{
    if b.len() == 0 {
        assert(a + b =~= a);
        assert(targets(a) + targets(b) =~= targets(a));
    } else {
        lemma_targets_add(a, b.drop_last());
        assert((a + b).drop_last() =~= a + b.drop_last());
        assert((a + b).last() == b.last());
        assert(targets(a + b) =~= targets(a) + targets(b));
    }
}

proof fn lemma_carried_add(a: Seq<Act>, b: Seq<Act>)
    ensures
        carried(a + b) == carried(a) + carried(b),
    decreases b.len(),
{
    if b.len() == 0 {
        assert(a + b =~= a);
        assert(carried(a) + carried(b) =~= carried(a));
    } else {
        lemma_carried_add(a, b.drop_last());
        assert((a + b).drop_last() =~= a + b.drop_last());
        assert((a + b).last() == b.last());
        assert(carried(a + b) =~= carried(a) + carried(b));
    }
}

proof fn lemma_one(act: Act)
    ensures
        targets(seq![act]) == (match act {
            Act::Transmit { to, envelope } => seq![to],
            _ => Seq::empty(),
        }),
        carried(seq![act]) == (match act {
            Act::Transmit { to, envelope } => match decoded(envelope) {
                Some(Message::Data { payload }) => seq![(to, payload)],
                Some(Message::DataReq { msg_id, payload }) => seq![(to, payload)],
                _ => Seq::empty(),
            },
            _ => Seq::empty(),
        }),
{
    assert(seq![act].drop_last() =~= Seq::<Act>::empty());
    assert(targets(seq![act].drop_last()) =~= Seq::empty());
    assert(carried(seq![act].drop_last()) =~= Seq::empty());
    assert(targets(seq![act]) =~= (match act {
        Act::Transmit { to, envelope } => seq![to],
        _ => Seq::empty(),
    }));
    assert(carried(seq![act]) =~= (match act {
        Act::Transmit { to, envelope } => match decoded(envelope) {
            Some(Message::Data { payload }) => seq![(to, payload)],
            Some(Message::DataReq { msg_id, payload }) => seq![(to, payload)],
            _ => Seq::empty(),
        },
        _ => Seq::empty(),
    }));
}

/// The envelope that carries a message: plain, or reliable under the next id.
pub open spec fn envelope_for(s: BrokerState, to: Option<Seq<u8>>, payload: Seq<u8>) -> Seq<u8> {
    if is_reliable(s, to) {
        encoded(Message::DataReq { msg_id: id_of(s.salt, s.next_id), payload })
    } else {
        encoded(Message::Data { payload })
    }
}

/// What a message carries is its payload, plain or reliable.
proof fn lemma_envelope_for(s: BrokerState, to: Option<Seq<u8>>, payload: Seq<u8>)
    requires
        s.salt.len() == 8,
    ensures
        match decoded(envelope_for(s, to, payload)) {
            Some(Message::Data { payload: p }) => p == payload,
            Some(Message::DataReq { msg_id, payload: p }) => p == payload,
            _ => false,
        },
{
    lemma_to_be_len(s.next_id, 8);
    lemma_decode_encode(Message::Data { payload });
    lemma_decode_encode(Message::DataReq { msg_id: id_of(s.salt, s.next_id), payload });
}

/// A message goes where its envelope is routed.
proof fn lemma_transmitted_route(
    s: BrokerState,
    to: Option<Seq<u8>>,
    payload: Seq<u8>,
    retries: nat,
)
    requires
        s.salt.len() == 8,
    ensures
        ({
            let (after, acts) = transmitted(s, to, payload, retries);
            let way = routed(s, to, envelope_for(s, to, payload));
            &&& targets(acts) == targets(way.1)
            &&& carried(acts) == carried(way.1)
            &&& after.cursor == way.0.cursor
            &&& after.peers == s.peers
            &&& after.mode == s.mode
            &&& after.guarantee == s.guarantee
            &&& after.salt == s.salt
            &&& after.buffer == s.buffer
        }),
{
    let (after, acts) = transmitted(s, to, payload, retries);
    let way = routed(s, to, envelope_for(s, to, payload));
    if is_reliable(s, to) {
        let arm = Act::Arm { msg_id: id_of(s.salt, s.next_id) };
        lemma_targets_add(seq![arm], way.1);
        lemma_carried_add(seq![arm], way.1);
        lemma_one(arm);
        assert(acts =~= seq![arm] + way.1);
        assert(targets(acts) =~= targets(way.1));
        assert(carried(acts) =~= carried(way.1));
    }
}

/// A published message goes to every peer once, in an unacknowledged envelope, whatever the
/// guarantee; the broker keeps nothing of it.
pub proof fn lemma_publish_reaches_all(s: BrokerState, payload: Seq<u8>)
    requires
        s.mode == SendMode::Publish,
        s.peers.len() > 0,
    ensures
        sent(s, None, payload) == (
            s,
            Seq::new(
                s.peers.len(),
                |i: int|
                    Act::Transmit { to: s.peers[i], envelope: encoded(Message::Data { payload }) },
            ),
        ),
{
    assert(sent(s, None, payload).1 =~= Seq::new(
        s.peers.len(),
        |i: int| Act::Transmit { to: s.peers[i], envelope: encoded(Message::Data { payload }) },
    ));
}

/// A message for a named peer goes to that peer and no other, once if it is connected and
/// not at all if it is not, whatever the send mode.
pub proof fn lemma_by_identity(s: BrokerState, id: Seq<u8>, payload: Seq<u8>)
    requires
        s.salt.len() == 8,
        s.peers.len() > 0,
    ensures
        carried(sent(s, Some(id), payload).1) == (if s.peers.contains(id) {
            seq![(id, payload)]
        } else {
            Seq::empty()
        }),
        targets(sent(s, Some(id), payload).1) == (if s.peers.contains(id) {
            seq![id]
        } else {
            Seq::empty()
        }),
{
    lemma_transmitted_route(s, Some(id), payload, MAX_RETRIES as nat);
    lemma_envelope_for(s, Some(id), payload);
    lemma_one(Act::Transmit { to: id, envelope: envelope_for(s, Some(id), payload) });
}

/// Round-robin messages go to one peer each, cycling through the peers in the order in
/// which they connected.
pub proof fn lemma_round_robin(s: BrokerState, payloads: Seq<Seq<u8>>)
    requires
        s.mode == SendMode::RoundRobin,
        s.salt.len() == 8,
        s.peers.len() > 0,
        s.cursor + payloads.len() <= usize::MAX,
    ensures
        ({
            let items = payloads.map_values(|p: Seq<u8>| (None::<Seq<u8>>, p));
            let (after, acts) = sent_all(s, items);
            &&& carried(acts) == Seq::new(
                payloads.len(),
                |i: int| (s.peers[(s.cursor + i) % s.peers.len() as int], payloads[i]),
            )
            &&& after.cursor == s.cursor + payloads.len()
            &&& after.peers == s.peers
            &&& after.mode == s.mode
            &&& after.guarantee == s.guarantee
            &&& after.salt == s.salt
        }),
    decreases payloads.len(),
{
    let items = payloads.map_values(|p: Seq<u8>| (None::<Seq<u8>>, p));
    let want = Seq::new(
        payloads.len(),
        |i: int| (s.peers[(s.cursor + i) % s.peers.len() as int], payloads[i]),
    );
    if payloads.len() == 0 {
        assert(carried(sent_all(s, items).1) =~= want);
    } else {
        let first = payloads.drop_last();
        lemma_round_robin(s, first);
        let before_items = first.map_values(|p: Seq<u8>| (None::<Seq<u8>>, p));
        assert(items.drop_last() =~= before_items);
        let (before, acts) = sent_all(s, before_items);
        let p = payloads.last();
        let (after, more) = sent(before, None, p);
        lemma_transmitted_route(before, None, p, MAX_RETRIES as nat);
        lemma_envelope_for(before, None, p);
        let n = before.peers.len();
        let to = before.peers[(before.cursor % n) as int];
        lemma_one(Act::Transmit { to, envelope: envelope_for(before, None, p) });
        lemma_carried_add(acts, more);
        assert(carried(more) =~= seq![(to, p)]);
        assert(carried(sent_all(s, items).1) =~= want);
    }
}

/// As many consecutive round-robin messages as there are peers reach every peer, each with
/// exactly one of them.
pub proof fn lemma_round_robin_fair(s: BrokerState, payloads: Seq<Seq<u8>>, j: int)
    requires
        s.mode == SendMode::RoundRobin,
        s.salt.len() == 8,
        s.peers.len() > 0,
        s.peers.no_duplicates(),
        payloads.len() == s.peers.len(),
        s.cursor + payloads.len() <= usize::MAX,
        0 <= j < s.peers.len(),
    ensures
        ({
            let items = payloads.map_values(|p: Seq<u8>| (None::<Seq<u8>>, p));
            let out = carried(sent_all(s, items).1);
            &&& out.len() == s.peers.len()
            &&& exists|i: int| 0 <= i < out.len() && (#[trigger] out[i]).0 == s.peers[j]
            &&& forall|a: int, b: int|
                0 <= a < out.len() && 0 <= b < out.len() && (#[trigger] out[a]).0 == s.peers[j]
                    && (#[trigger] out[b]).0 == s.peers[j] ==> a == b
        }),
{
    lemma_round_robin(s, payloads);
    let items = payloads.map_values(|p: Seq<u8>| (None::<Seq<u8>>, p));
    let out = carried(sent_all(s, items).1);
    let n = s.peers.len() as int;
    let c = s.cursor as int;
    let i = lemma_turn_of(c, n, j);
    assert((c + i) % n == j);
    assert(out[i].0 == s.peers[j]);
    assert forall|a: int, b: int|
        0 <= a < out.len() && 0 <= b < out.len() && (#[trigger] out[a]).0 == s.peers[j] && (
        #[trigger] out[b]).0 == s.peers[j] implies a == b by {
        assert(s.peers[(c + a) % n] == s.peers[j]);
        assert(s.peers[(c + b) % n] == s.peers[j]);
    }
}

/// The first `n` peers in turn from `s` on, and the state behind them.
pub open spec fn picked_all(s: BrokerState, n: nat) -> (BrokerState, Seq<Option<Seq<u8>>>)
    decreases n,
{
    if n == 0 {
        (s, Seq::empty())
    } else {
        let (before, picks) = picked_all(s, (n - 1) as nat);
        let (after, pick) = picked(before);
        (after, picks.push(pick))
    }
}

/// The peers take turns in the order in which they connected, and no turn changes that order.
/// Nobody is picked exactly where nobody is connected.
pub proof fn lemma_picks_cycle(s: BrokerState, n: nat)
    requires
        s.cursor + n <= usize::MAX,
    ensures
        picked(s).1 is None <==> s.peers.len() == 0,
        picked_all(s, n).1.len() == n,
        picked_all(s, n).0.peers == s.peers,
        s.peers.len() > 0 ==> picked_all(s, n).0.cursor == s.cursor + n,
        s.peers.len() > 0 ==> forall|i: int|
            0 <= i < n ==> #[trigger] picked_all(s, n).1[i] == Some(
                s.peers[(s.cursor + i) % s.peers.len() as int],
            ),
        s.peers.len() > 0 ==> forall|i: int|
            0 <= i && i + s.peers.len() < n ==> #[trigger] picked_all(s, n).1[i] == picked_all(
                s,
                n,
            ).1[i + s.peers.len()],
    decreases n,
{
    if n > 0 {
        lemma_picks_cycle(s, (n - 1) as nat);
    }
    if s.peers.len() > 0 {
        let len = s.peers.len() as int;
        let picks = picked_all(s, n).1;
        assert forall|i: int| 0 <= i && i + len < n implies #[trigger] picks[i] == picks[i
            + len] by {
            vstd::arithmetic::div_mod::lemma_mod_add_multiples_vanish(s.cursor + i, len);
            assert((s.cursor + (i + len)) % len == (s.cursor + i) % len);
        }
    }
}

/// Turns are fair: of `rounds` times as many turns as there are peers, every peer gets exactly
/// `rounds`.
pub proof fn lemma_picks_fair(s: BrokerState, rounds: nat, j: int)
    requires
        s.peers.no_duplicates(),
        0 <= j < s.peers.len(),
        s.cursor + rounds * s.peers.len() <= usize::MAX,
    ensures
        turns_of(picked_all(s, rounds * s.peers.len()).1, s.peers[j]) == rounds,
    decreases rounds,
{
    let n = s.peers.len();
    if rounds == 0 {
        assert(rounds * n == 0) by (nonlinear_arith)
            requires
                rounds == 0,
        ;
    } else {
        let fewer = (rounds - 1) as nat;
        assert(rounds * n == fewer * n + n) by (nonlinear_arith)
            requires
                rounds == fewer + 1,
        ;
        lemma_picks_fair(s, fewer, j);
        lemma_picks_cycle(s, fewer * n);
        let mid = picked_all(s, fewer * n).0;
        lemma_picked_add(s, fewer * n, n);
        let more = picked_all(mid, n).1;
        lemma_turns_add(picked_all(s, fewer * n).1, more, s.peers[j]);
        lemma_one_round(mid, j);
    }
}

/// How many of the turns `id` got.
pub open spec fn turns_of(picks: Seq<Option<Seq<u8>>>, id: Seq<u8>) -> nat
    decreases picks.len(),
{
    if picks.len() == 0 {
        0
    } else {
        turns_of(picks.drop_last(), id) + if picks.last() == Some(id) {
            1nat
        } else {
            0nat
        }
    }
}

proof fn lemma_turns_add(a: Seq<Option<Seq<u8>>>, b: Seq<Option<Seq<u8>>>, id: Seq<u8>)
    ensures
        turns_of(a + b, id) == turns_of(a, id) + turns_of(b, id),
    decreases b.len(),
{
    if b.len() == 0 {
        assert(a + b =~= a);
    } else {
        assert((a + b).drop_last() =~= a + b.drop_last());
        lemma_turns_add(a, b.drop_last(), id);
    }
}

proof fn lemma_picked_add(s: BrokerState, a: nat, b: nat)
    ensures
        picked_all(s, a + b).0 == picked_all(picked_all(s, a).0, b).0,
        picked_all(s, a + b).1 == picked_all(s, a).1 + picked_all(picked_all(s, a).0, b).1,
    decreases b,
{
    let mid = picked_all(s, a).0;
    if b > 0 {
        lemma_picked_add(s, a, (b - 1) as nat);
        assert((a + b - 1) as nat == a + (b - 1) as nat);
    }
    assert(picked_all(s, a + b).1 =~= picked_all(s, a).1 + picked_all(mid, b).1);
}

proof fn lemma_turns_count(picks: Seq<Option<Seq<u8>>>, id: Seq<u8>, at: int)
    requires
        0 <= at < picks.len(),
        forall|i: int| 0 <= i < picks.len() ==> (#[trigger] picks[i] == Some(id) <==> i == at),
    ensures
        turns_of(picks, id) == 1,
    decreases picks.len(),
{
    let front = picks.drop_last();
    if at == picks.len() - 1 {
        lemma_turns_none(front, id);
    } else {
        lemma_turns_count(front, id, at);
    }
}

proof fn lemma_turns_none(picks: Seq<Option<Seq<u8>>>, id: Seq<u8>)
    requires
        forall|i: int| 0 <= i < picks.len() ==> #[trigger] picks[i] != Some(id),
    ensures
        turns_of(picks, id) == 0,
    decreases picks.len(),
{
    if picks.len() > 0 {
        lemma_turns_none(picks.drop_last(), id);
    }
}

proof fn lemma_one_round(s: BrokerState, j: int)
    requires
        s.peers.no_duplicates(),
        0 <= j < s.peers.len(),
        s.cursor + s.peers.len() <= usize::MAX,
    ensures
        turns_of(picked_all(s, s.peers.len()).1, s.peers[j]) == 1,
{
    let n = s.peers.len();
    lemma_picks_cycle(s, n);
    let picks = picked_all(s, n).1;
    let at = lemma_turn_of(s.cursor as int, n as int, j);
    lemma_turns_count(picks, s.peers[j], at);
}

/// The one of `n` turns from `c` on that falls to place `j`.
proof fn lemma_turn_of(c: int, n: int, j: int) -> (at: int)
    requires
        0 <= j < n,
    ensures
        0 <= at < n,
        forall|i: int| 0 <= i < n ==> (#[trigger] ((c + i) % n) == j <==> i == at),
{
    let at = (j - c) % n;
    vstd::arithmetic::div_mod::lemma_fundamental_div_mod(j - c, n);
    let q = (j - c) / n;
    vstd::arithmetic::div_mod::lemma_mod_multiples_vanish(-q, j, n);
    assert(n * (-q) == -(n * q)) by (nonlinear_arith);
    vstd::arithmetic::div_mod::lemma_small_mod(j as nat, n as nat);
    assert((c + at) % n == j);
    assert forall|i: int| 0 <= i < n && #[trigger] ((c + i) % n) == j implies i == at by {
        vstd::arithmetic::div_mod::lemma_fundamental_div_mod(c + i, n);
        vstd::arithmetic::div_mod::lemma_fundamental_div_mod(c + at, n);
        let u = (c + i) / n;
        let v = (c + at) / n;
        assert(i - at == n * (u - v)) by (nonlinear_arith)
            requires
                c + i == n * u + j,
                c + at == n * v + j,
        ;
        assert(u - v == 0) by (nonlinear_arith)
            requires
                -n < n * (u - v) < n,
                n > 0,
        ;
        assert(n * (u - v) == 0) by (nonlinear_arith)
            requires
                u - v == 0,
        ;
    }
    at
}

/// Whatever is sent goes to peers that are connected.
pub proof fn lemma_only_to_peers(s: BrokerState, to: Option<Seq<u8>>, payload: Seq<u8>)
    requires
        s.salt.len() == 8,
    ensures
        forall|i: int|
            0 <= i < sent(s, to, payload).1.len() ==> (#[trigger] sent(
                s,
                to,
                payload,
            ).1[i] matches Act::Transmit { to: id, envelope } ==> s.peers.contains(id)),
{
    let acts = sent(s, to, payload).1;
    let envelope = envelope_for(s, to, payload);
    let way = routed(s, to, envelope).1;
    assert forall|i: int| 0 <= i < way.len() implies (
    #[trigger] way[i] matches Act::Transmit { to: id, envelope } ==> s.peers.contains(id)) by {
        if to is None && s.mode == SendMode::Publish {
            assert(s.peers.contains(s.peers[i]));
        } else if to is None {
            assert(s.peers.contains(s.peers[(s.cursor % s.peers.len()) as int]));
        }
    }
    if s.peers.len() > 0 && is_reliable(s, to) {
        assert forall|i: int| 0 <= i < acts.len() implies (
        #[trigger] acts[i] matches Act::Transmit { to: id, envelope } ==> s.peers.contains(
            id,
        )) by {
            if i > 0 {
                assert(acts[i] == way[i - 1]);
            }
        }
    }
}

// Buffering ------------------------------------------------------------------

/// Messages sent while nobody is connected are kept, in order, and nothing goes out.
pub proof fn lemma_buffered(s: BrokerState, items: Seq<(Option<Seq<u8>>, Seq<u8>)>)
    requires
        s.peers.len() == 0,
    ensures
        sent_all(s, items) == (
            BrokerState { buffer: s.buffer + items, ..s },
            Seq::<Act>::empty(),
        ),
    decreases items.len(),
{
    if items.len() == 0 {
        assert(s.buffer + items =~= s.buffer);
    } else {
        lemma_buffered(s, items.drop_last());
        assert((s.buffer + items.drop_last()).push(items.last()) =~= s.buffer + items);
        assert(sent_all(s, items).1 =~= Seq::<Act>::empty());
    }
}

/// The payloads of the messages that are for `id` or for anyone, each with `id`, in order.
pub open spec fn meant_for(items: Seq<(Option<Seq<u8>>, Seq<u8>)>, id: Seq<u8>) -> Seq<
    (Seq<u8>, Seq<u8>),
>
    decreases items.len(),
{
    if items.len() == 0 {
        Seq::empty()
    } else {
        let (to, payload) = items.last();
        meant_for(items.drop_last(), id) + if to is None || to == Some(id) {
            seq![(id, payload)]
        } else {
            Seq::empty()
        }
    }
}

/// With one peer, every message for it or for anyone goes to it, in order.
proof fn lemma_only_peer(
    s: BrokerState,
    id: Seq<u8>,
    items: Seq<(Option<Seq<u8>>, Seq<u8>)>,
)
    requires
        s.salt.len() == 8,
        s.peers == seq![id],
    ensures
        carried(sent_all(s, items).1) == meant_for(items, id),
        sent_all(s, items).0.peers == s.peers,
        sent_all(s, items).0.salt == s.salt,
        sent_all(s, items).0.buffer == s.buffer,
    decreases items.len(),
{
    if items.len() == 0 {
        assert(carried(sent_all(s, items).1) =~= meant_for(items, id));
    } else {
        let first = items.drop_last();
        lemma_only_peer(s, id, first);
        let (before, acts) = sent_all(s, first);
        let (to, p) = items.last();
        let (after, more) = sent(before, to, p);
        lemma_transmitted_route(before, to, p, MAX_RETRIES as nat);
        lemma_envelope_for(before, to, p);
        let act = Act::Transmit { to: id, envelope: envelope_for(before, to, p) };
        let way = routed(before, to, envelope_for(before, to, p));
        assert(before.peers[0] == id);
        lemma_one(act);
        lemma_carried_add(acts, more);
        if to is None || to == Some(id) {
            assert(before.peers.contains(id));
            assert(way.1 =~= seq![act]);
        } else {
            assert(!before.peers.contains(to->0));
            assert(way.1 =~= Seq::<Act>::empty());
            assert(carried(more) =~= Seq::empty());
        }
        assert(carried(sent_all(s, items).1) =~= meant_for(items, id));
    }
}

/// Messages sent while nobody was connected go to the first peer that connects, in the
/// order in which they were sent, under every send mode and guarantee. Those for another
/// named peer are dropped.
pub proof fn lemma_buffer_reaches_first_peer(s: BrokerState, id: Seq<u8>)
    requires
        s.salt.len() == 8,
        s.peers.len() == 0,
    ensures
        carried(connected(s, id).1) == meant_for(s.buffer, id),
        connected(s, id).0.buffer.len() == 0,
        connected(s, id).0.peers == seq![id],
{
    let joined = BrokerState { peers: s.peers.push(id), buffer: Seq::empty(), ..s };
    assert(joined.peers =~= seq![id]);
    lemma_only_peer(joined, id, s.buffer);
    let accept = Act::Accept { accepted: true };
    lemma_one(accept);
    lemma_carried_add(seq![accept], sent_all(joined, s.buffer).1);
    assert(carried(connected(s, id).1) =~= carried(sent_all(joined, s.buffer).1));
}

// Delivery -------------------------------------------------------------------

/// A reliable message that arrives is delivered, and acknowledged under its own id to the
/// peer that sent it; nothing else happens.
pub proof fn lemma_request_is_acknowledged(
    s: BrokerState,
    from: Seq<u8>,
    msg_id: Seq<u8>,
    payload: Seq<u8>,
)
    requires
        s.peers.contains(from),
    ensures
        received(s, from, Message::DataReq { msg_id, payload }) == (
            s,
            seq![
                Act::Deliver { from, payload },
                Act::Transmit { to: from, envelope: encoded(Message::Ack { msg_id }) },
            ],
        ),
{
    assert(received(s, from, Message::DataReq { msg_id, payload }).1 =~= seq![
        Act::Deliver { from, payload },
        Act::Transmit { to: from, envelope: encoded(Message::Ack { msg_id }) },
    ]);
}

/// Once a message is acknowledged its timer means nothing: it is never sent again.
pub proof fn lemma_ack_ends_resending(s: BrokerState, from: Seq<u8>, msg_id: Seq<u8>)
    ensures
        ({
            let after = received(s, from, Message::Ack { msg_id }).0;
            &&& !after.pending.contains_key(key(msg_id))
            &&& timed_out(after, msg_id) == (after, Seq::<Act>::empty())
        }),
{
}

/// A published message is never in flight, whatever the guarantee.
pub proof fn lemma_publish_keeps_nothing(s: BrokerState, payload: Seq<u8>)
    requires
        s.mode == SendMode::Publish,
    ensures
        sent(s, None, payload).0.pending == s.pending,
        sent(s, None, payload).0.next_id == s.next_id,
{
}

/// A reliable message, from the send to the acknowledgement: the sender `s` sends it to the
/// peer `b`, which delivers it once and answers; the answer leaves nothing in flight.
pub proof fn lemma_reliable_exchange(
    s: BrokerState,
    t: BrokerState,
    a: Seq<u8>,
    b: Seq<u8>,
    payload: Seq<u8>,
)
    requires
        s.salt.len() == 8,
        !s.pending.contains_key(key(id_of(s.salt, s.next_id))),
        s.guarantee == DeliveryGuarantee::AtLeastOnce,
        s.peers.contains(b),
        t.peers.contains(a),
    ensures
        ({
            let msg_id = id_of(s.salt, s.next_id);
            let (flying, out) = sent(s, Some(b), payload);
            let request = encoded(Message::DataReq { msg_id, payload });
            let answer = encoded(Message::Ack { msg_id });
            &&& out == seq![Act::Arm { msg_id }, Act::Transmit { to: b, envelope: request }]
            &&& flying.pending.contains_key(key(msg_id))
            &&& decoded(request) == Some(Message::DataReq { msg_id, payload })
            &&& received(t, a, decoded(request)->0) == (
                t,
                seq![Act::Deliver { from: a, payload }, Act::Transmit { to: a, envelope: answer }],
            )
            &&& decoded(answer) == Some(Message::Ack { msg_id })
            &&& received(flying, b, decoded(answer)->0) == (
                BrokerState { next_id: wrap(s.next_id, u64::MAX as nat), ..s },
                seq![Act::Cancel { msg_id }],
            )
        }),
{
    let msg_id = id_of(s.salt, s.next_id);
    let (flying, out) = sent(s, Some(b), payload);
    lemma_to_be_len(s.next_id, 8);
    lemma_decode_encode(Message::DataReq { msg_id, payload });
    lemma_decode_encode(Message::Ack { msg_id });
    assert(s.peers.len() > 0);
    assert(out =~= seq![
        Act::Arm { msg_id },
        Act::Transmit { to: b, envelope: encoded(Message::DataReq { msg_id, payload }) },
    ]);
    lemma_request_is_acknowledged(t, a, msg_id, payload);
    assert(flying.pending.remove(key(msg_id)) =~= s.pending);
}

/// The state and the latest id of a message whose timer has run out `n` times in a row.
pub open spec fn chased(s: BrokerState, msg_id: Seq<u8>, n: nat) -> (BrokerState, Seq<u8>)
    decreases n,
{
    if n == 0 {
        (s, msg_id)
    } else {
        let (before, id) = chased(s, msg_id, (n - 1) as nat);
        (timed_out(before, id).0, id_of(before.salt, before.next_id))
    }
}

/// While peers are connected, a message that is never acknowledged is sent again as often
/// as it has retries, each time with the same payload and receiver.
pub proof fn lemma_chased(s: BrokerState, msg_id: Seq<u8>, n: nat)
    requires
        sound(s),
        s.peers.len() > 0,
        s.pending.contains_key(key(msg_id)),
        n <= s.pending[key(msg_id)].retries,
    ensures
        ({
            let (t, id) = chased(s, msg_id, n);
            let m = s.pending[key(msg_id)];
            &&& sound(t)
            &&& t.peers == s.peers
            &&& t.pending.contains_key(key(id))
            &&& t.pending[key(id)] == (InFlight { retries: (m.retries - n) as nat, ..m })
        }),
    decreases n,
{
    if n > 0 {
        lemma_chased(s, msg_id, (n - 1) as nat);
        let (before, id) = chased(s, msg_id, (n - 1) as nat);
        lemma_timed_out_sound(before, id);
        let m = before.pending[key(id)];
        assert(is_reliable(before, m.to));
    }
}

/// While peers are connected, a message that is never acknowledged is given up once its
/// retries are used up: the last timeout sends nothing and leaves it out of flight.
pub proof fn lemma_given_up(s: BrokerState, msg_id: Seq<u8>)
    requires
        sound(s),
        s.peers.len() > 0,
        s.pending.contains_key(key(msg_id)),
    ensures
        ({
            let (t, id) = chased(s, msg_id, s.pending[key(msg_id)].retries);
            let (after, acts) = timed_out(t, id);
            &&& acts == Seq::<Act>::empty()
            &&& after == (BrokerState { pending: t.pending.remove(key(id)), ..t })
            &&& s.pending[key(msg_id)].retries <= MAX_RETRIES
        }),
{
    lemma_chased(s, msg_id, s.pending[key(msg_id)].retries);
}

// What each command does -----------------------------------------------------

/// A disconnection changes nothing but the list of peers: it is the old one without that
/// identity, in the same order. What is in flight stays in flight.
pub proof fn lemma_down_only_forgets(s: BrokerState, id: Seq<u8>)
    requires
        s.peers.no_duplicates(),
    ensures
        ({
            let t = disconnected(s, id);
            &&& t.mode == s.mode
            &&& t.guarantee == s.guarantee
            &&& t.cursor == s.cursor
            &&& t.buffer == s.buffer
            &&& t.pending == s.pending
            &&& t.salt == s.salt
            &&& t.next_id == s.next_id
            &&& !t.peers.contains(id)
            &&& !s.peers.contains(id) ==> t.peers == s.peers
            &&& forall|at: int|
                0 <= at < s.peers.len() && #[trigger] s.peers[at] == id ==> t.peers
                    == s.peers.take(at) + s.peers.skip(at + 1)
        }),
{
    let t = disconnected(s, id);
    if s.peers.contains(id) {
        let i = s.peers.index_of(id);
        assert(s.peers[i] == id);
        assert forall|at: int| 0 <= at < s.peers.len() && #[trigger] s.peers[at]
            == id implies t.peers == s.peers.take(at) + s.peers.skip(at + 1) by {
            assert(at == i);
            assert(t.peers =~= s.peers.take(at) + s.peers.skip(at + 1));
        }
        if t.peers.contains(id) {
            let j = t.peers.index_of(id);
            assert(t.peers[j] == id);
            if j < i {
                assert(s.peers[j] == id);
            } else {
                assert(s.peers[j + 1] == id);
            }
        }
    }
}

/// What goes out for a message, and what is kept of it: one envelope to the peer named, to
/// every peer in publish mode, to the peer whose turn it is in round-robin mode. A reliable
/// message goes out under the next id, whose timer is started first, and is in flight from
/// then on with `retries` left; a plain one leaves nothing behind. Nothing else changes.
pub proof fn lemma_goes_out(s: BrokerState, to: Option<Seq<u8>>, payload: Seq<u8>, retries: nat)
    requires
        s.peers.len() > 0,
    ensures
        ({
            let (t, acts) = transmitted(s, to, payload, retries);
            let reliable = s.guarantee == DeliveryGuarantee::AtLeastOnce && (to is Some || s.mode
                != SendMode::Publish);
            let msg_id = s.salt + to_be(s.next_id, 8);
            let envelope = if reliable {
                encoded(Message::DataReq { msg_id, payload })
            } else {
                encoded(Message::Data { payload })
            };
            let receivers = match to {
                Some(id) => if s.peers.contains(id) {
                    seq![id]
                } else {
                    Seq::empty()
                },
                None => if s.mode == SendMode::Publish {
                    s.peers
                } else {
                    seq![s.peers[(s.cursor % s.peers.len()) as int]]
                },
            };
            let lead = if reliable {
                1nat
            } else {
                0nat
            };
            &&& acts.len() == lead + receivers.len()
            &&& reliable ==> acts[0] == Act::Arm { msg_id }
            &&& forall|i: int|
                0 <= i < receivers.len() ==> #[trigger] acts[lead + i] == (Act::Transmit {
                    to: receivers[i],
                    envelope,
                })
            &&& t.pending == (if reliable {
                s.pending.insert(key(msg_id), InFlight { to, payload, retries })
            } else {
                s.pending
            })
            &&& t.next_id == (if !reliable {
                s.next_id
            } else if s.next_id == u64::MAX {
                0
            } else {
                s.next_id + 1
            })
            &&& t.cursor == (if to is Some || s.mode == SendMode::Publish {
                s.cursor
            } else if s.cursor == usize::MAX {
                0
            } else {
                s.cursor + 1
            })
            &&& t.mode == s.mode
            &&& t.guarantee == s.guarantee
            &&& t.peers == s.peers
            &&& t.buffer == s.buffer
            &&& t.salt == s.salt
        }),
{
}

/// A message that is sent goes out at once, with all its retries, while anyone is connected;
/// else it waits behind what waits already, and nothing goes out.
pub proof fn lemma_send_or_wait(s: BrokerState, to: Option<Seq<u8>>, payload: Seq<u8>)
    ensures
        s.peers.len() > 0 ==> sent(s, to, payload) == transmitted(s, to, payload, 5),
        s.peers.len() == 0 ==> {
            let (t, acts) = sent(s, to, payload);
            &&& acts.len() == 0
            &&& t.buffer == s.buffer.push((to, payload))
            &&& t.peers == s.peers
            &&& t.pending == s.pending
            &&& t.next_id == s.next_id
            &&& t.cursor == s.cursor
            &&& t.salt == s.salt
            &&& t.mode == s.mode
            &&& t.guarantee == s.guarantee
        },
{
}

/// A peer that is let stay comes last among the peers and is told so first; everything that
/// waited goes out then, in order, and nothing waits any more.
pub proof fn lemma_up_lets_in(s: BrokerState, id: Seq<u8>)
    requires
        !s.peers.contains(id),
    ensures
        ({
            let (t, acts) = connected(s, id);
            let joined = BrokerState { peers: s.peers.push(id), buffer: Seq::empty(), ..s };
            &&& acts.len() > 0
            &&& acts[0] == (Act::Accept { accepted: true })
            &&& (t, acts.skip(1)) == sent_all(joined, s.buffer)
            &&& t.peers == s.peers.push(id)
            &&& t.buffer.len() == 0
            &&& t.mode == s.mode
            &&& t.guarantee == s.guarantee
            &&& t.salt == s.salt
            &&& s.buffer.len() == 0 ==> acts.len() == 1 && t.pending == s.pending && t.cursor
                == s.cursor && t.next_id == s.next_id
        }),
{
    let (t, acts) = connected(s, id);
    let joined = BrokerState { peers: s.peers.push(id), buffer: Seq::empty(), ..s };
    lemma_sent_all_keeps(joined, s.buffer);
    assert(acts.skip(1) =~= sent_all(joined, s.buffer).1);
}

/// Sending while peers are connected touches neither the peers nor what waits.
proof fn lemma_sent_all_keeps(s: BrokerState, items: Seq<(Option<Seq<u8>>, Seq<u8>)>)
    requires
        s.peers.len() > 0,
    ensures
        sent_all(s, items).0.peers == s.peers,
        sent_all(s, items).0.buffer == s.buffer,
        sent_all(s, items).0.mode == s.mode,
        sent_all(s, items).0.guarantee == s.guarantee,
        sent_all(s, items).0.salt == s.salt,
    decreases items.len(),
{
    if items.len() > 0 {
        lemma_sent_all_keeps(s, items.drop_last());
    }
}

/// Sending many messages is sending one after the other: what goes out for the first comes
/// before what goes out for the rest, which are sent on the state behind it.
pub proof fn lemma_sent_one_by_one(
    s: BrokerState,
    a: Seq<(Option<Seq<u8>>, Seq<u8>)>,
    b: Seq<(Option<Seq<u8>>, Seq<u8>)>,
    to: Option<Seq<u8>>,
    payload: Seq<u8>,
)
    ensures
        sent_all(s, Seq::empty()) == (s, Seq::<Act>::empty()),
        sent_all(s, seq![(to, payload)]) == sent(s, to, payload),
        sent_all(s, a + b).0 == sent_all(sent_all(s, a).0, b).0,
        sent_all(s, a + b).1 == sent_all(s, a).1 + sent_all(sent_all(s, a).0, b).1,
    decreases b.len(),
{
    let one = seq![(to, payload)];
    assert(one.drop_last() =~= Seq::<(Option<Seq<u8>>, Seq<u8>)>::empty());
    assert(sent_all(s, one.drop_last()) == (s, Seq::<Act>::empty()));
    assert(sent_all(s, one).1 =~= sent(s, to, payload).1);
    if b.len() == 0 {
        assert(a + b =~= a);
        assert(sent_all(s, a).1 + Seq::<Act>::empty() =~= sent_all(s, a).1);
    } else {
        lemma_sent_one_by_one(s, a, b.drop_last(), to, payload);
        assert((a + b).drop_last() =~= a + b.drop_last());
        assert(sent_all(s, a + b).1 =~= sent_all(s, a).1 + sent_all(sent_all(s, a).0, b).1);
    }
}

/// What arrives changes nothing but what is in flight, and that only by an acknowledgement:
/// its own message leaves, and no other. Data is handed to the application once, a request
/// answered under its own id to its sender if that is connected; greetings and heartbeats
/// come to nothing.
pub proof fn lemma_received_does(s: BrokerState, from: Seq<u8>, m: Message)
    ensures
        ({
            let (t, acts) = received(s, from, m);
            &&& t.mode == s.mode
            &&& t.guarantee == s.guarantee
            &&& t.peers == s.peers
            &&& t.cursor == s.cursor
            &&& t.buffer == s.buffer
            &&& t.salt == s.salt
            &&& t.next_id == s.next_id
            &&& match m {
                Message::Data { payload } => {
                    &&& t.pending == s.pending
                    &&& acts == seq![Act::Deliver { from, payload }]
                },
                Message::DataReq { msg_id, payload } => {
                    &&& t.pending == s.pending
                    &&& acts.len() == if s.peers.contains(from) {
                        2nat
                    } else {
                        1nat
                    }
                    &&& acts[0] == (Act::Deliver { from, payload })
                    &&& s.peers.contains(from) ==> acts[1] == (Act::Transmit {
                        to: from,
                        envelope: encoded(Message::Ack { msg_id }),
                    })
                },
                Message::Ack { msg_id } => {
                    &&& t.pending == s.pending.remove(key(msg_id))
                    &&& s.pending.contains_key(key(msg_id)) ==> acts == seq![Act::Cancel { msg_id }]
                    &&& !s.pending.contains_key(key(msg_id)) ==> acts.len() == 0
                },
                _ => t.pending == s.pending && acts.len() == 0,
            }
        }),
{
    if let Message::Ack { msg_id } = m {
        assert(received(s, from, m).0.pending =~= s.pending.remove(key(msg_id)));
    }
}

/// The timer of a message in flight runs out with retries left and its receiver connected, or
/// anyone if it is for anyone: it goes out again, once, to the peer named or the peer whose
/// turn it is, as a request under a new id whose timer is started; and it stays in flight
/// under that id with one retry less, in place of the old one.
pub proof fn lemma_timeout_resends(s: BrokerState, msg_id: Seq<u8>)
    requires
        sound(s),
        s.pending.contains_key(key(msg_id)),
        s.pending[key(msg_id)].retries > 0,
        match s.pending[key(msg_id)].to {
            Some(id) => s.peers.contains(id),
            None => s.peers.len() > 0,
        },
    ensures
        ({
            let m = s.pending[key(msg_id)];
            let (t, acts) = timed_out(s, msg_id);
            let new_id = s.salt + to_be(s.next_id, 8);
            let receiver = match m.to {
                Some(id) => id,
                None => s.peers[(s.cursor % s.peers.len()) as int],
            };
            &&& acts == seq![
                Act::Arm { msg_id: new_id },
                Act::Transmit {
                    to: receiver,
                    envelope: encoded(Message::DataReq { msg_id: new_id, payload: m.payload }),
                },
            ]
            &&& t.pending == s.pending.remove(key(msg_id)).insert(
                key(new_id),
                InFlight { to: m.to, payload: m.payload, retries: (m.retries - 1) as nat },
            )
            &&& carried(acts) == seq![(receiver, m.payload)]
            &&& targets(acts) == seq![receiver]
            &&& t.peers == s.peers
            &&& t.buffer == s.buffer
            &&& t.mode == s.mode
            &&& t.guarantee == s.guarantee
            &&& s.next_id < u64::MAX ==> t.next_id == s.next_id + 1
            &&& m.to is None && s.cursor < usize::MAX ==> t.cursor == s.cursor + 1
            &&& m.to is Some ==> t.cursor == s.cursor
            &&& t.salt == s.salt
        }),
{
    let m = s.pending[key(msg_id)];
    let without = BrokerState { pending: s.pending.remove(key(msg_id)), ..s };
    assert(is_reliable(s, m.to));
    let new_id = s.salt + to_be(s.next_id, 8);
    let receiver = match m.to {
        Some(id) => id,
        None => s.peers[(s.cursor % s.peers.len()) as int],
    };
    let request = Message::DataReq { msg_id: new_id, payload: m.payload };
    let arm = Act::Arm { msg_id: new_id };
    let go = Act::Transmit { to: receiver, envelope: encoded(request) };
    let acts = timed_out(s, msg_id).1;
    if let Some(id) = m.to {
        assert(s.peers.contains(id));
        assert(s.peers.len() > 0);
    }
    lemma_goes_out(without, m.to, m.payload, (m.retries - 1) as nat);
    assert(acts =~= seq![arm, go]);
    assert(acts =~= seq![arm] + seq![go]);
    lemma_to_be_len(s.next_id, 8);
    lemma_decode_encode(request);
    lemma_one(arm);
    lemma_one(go);
    lemma_carried_add(seq![arm], seq![go]);
    lemma_targets_add(seq![arm], seq![go]);
    assert(carried(acts) =~= seq![(receiver, m.payload)]);
    assert(targets(acts) =~= seq![receiver]);
}

/// What goes out while a message's timer runs out `n` times in a row.
pub open spec fn chased_acts(s: BrokerState, msg_id: Seq<u8>, n: nat) -> Seq<Act>
    decreases n,
{
    if n == 0 {
        Seq::empty()
    } else {
        let (before, id) = chased(s, msg_id, (n - 1) as nat);
        chased_acts(s, msg_id, (n - 1) as nat) + timed_out(before, id).1
    }
}

/// Each time that its timer runs out, while it has retries left, the message goes out once
/// more: to the peer that it is meant for or, if it is meant for none, to the peers in turn.
/// Every transmission is a request under an id of its own, whose timer is started.
pub proof fn lemma_chased_goes_out(s: BrokerState, msg_id: Seq<u8>, n: nat)
    requires
        sound(s),
        s.peers.len() > 0,
        s.pending.contains_key(key(msg_id)),
        n <= s.pending[key(msg_id)].retries,
        s.pending[key(msg_id)].to matches Some(id) ==> s.peers.contains(id),
        s.cursor + n <= usize::MAX,
        s.next_id + n <= u64::MAX,
    ensures
        ({
            let m = s.pending[key(msg_id)];
            let acts = chased_acts(s, msg_id, n);
            let receiver = |i: int|
                match m.to {
                    Some(id) => id,
                    None => s.peers[(s.cursor + i) % s.peers.len() as int],
                };
            let name = |i: int| s.salt + to_be((s.next_id + i) as nat, 8);
            &&& carried(acts).len() == n
            &&& forall|i: int| 0 <= i < n ==> #[trigger] carried(acts)[i] == (receiver(i), m.payload)
            &&& acts.len() == 2 * n
            &&& forall|i: int|
                #![trigger name(i)]
                0 <= i < n ==> acts[2 * i] == (Act::Arm { msg_id: name(i) }) && acts[2 * i + 1] == (
                Act::Transmit {
                    to: receiver(i),
                    envelope: encoded(
                        Message::DataReq { msg_id: name(i), payload: m.payload },
                    ),
                })
        }),
        chased(s, msg_id, n).0.cursor == s.cursor + (if s.pending[key(msg_id)].to is None {
            n
        } else {
            0
        }),
        chased(s, msg_id, n).0.next_id == s.next_id + n,
        chased(s, msg_id, n).0.salt == s.salt,
    decreases n,
{
    let m = s.pending[key(msg_id)];
    let acts = chased_acts(s, msg_id, n);
    if n > 0 {
        let fewer = (n - 1) as nat;
        lemma_chased(s, msg_id, fewer);
        lemma_chased_goes_out(s, msg_id, fewer);
        let (before, id) = chased(s, msg_id, fewer);
        lemma_timeout_resends(before, id);
        let earlier = chased_acts(s, msg_id, fewer);
        let more = timed_out(before, id).1;
        lemma_carried_add(earlier, more);
        assert(acts == earlier + more);
        let receiver = |i: int|
            match m.to {
                Some(id) => id,
                None => s.peers[(s.cursor + i) % s.peers.len() as int],
            };
        let name = |i: int| s.salt + to_be((s.next_id + i) as nat, 8);
        assert forall|i: int| #![trigger name(i)] 0 <= i < n implies acts[2 * i] == (Act::Arm {
            msg_id: name(i),
        }) && acts[2 * i + 1] == (Act::Transmit {
            to: receiver(i),
            envelope: encoded(Message::DataReq { msg_id: name(i), payload: m.payload }),
        }) by {
            if i < fewer {
                assert(acts[2 * i] == earlier[2 * i]);
                assert(acts[2 * i + 1] == earlier[2 * i + 1]);
            } else {
                assert(acts[2 * i] == more[0]);
                assert(acts[2 * i + 1] == more[1]);
            }
        }
    } else {
        assert(carried(acts) =~= Seq::empty());
    }
}

/// The timer of a message runs out otherwise. One that is not in flight any more comes to
/// nothing. One without retries left is given up. With nobody connected it goes back to wait,
/// with its receiver, behind what waits already. With its receiver gone and others there,
/// nothing goes out, and it stays in flight with one retry less.
pub proof fn lemma_timeout_otherwise(s: BrokerState, msg_id: Seq<u8>)
    requires
        sound(s),
    ensures
        ({
            let (t, acts) = timed_out(s, msg_id);
            let k = key(msg_id);
            let m = s.pending[k];
            let new_id = s.salt + to_be(s.next_id, 8);
            &&& !s.pending.contains_key(k) ==> t == s && acts.len() == 0
            &&& s.pending.contains_key(k) && m.retries == 0 ==> acts.len() == 0 && t.pending
                == s.pending.remove(k) && t.buffer == s.buffer && t.next_id == s.next_id && t.cursor
                == s.cursor
            &&& s.pending.contains_key(k) && m.retries > 0 && s.peers.len() == 0 ==> acts.len() == 0
                && t.pending == s.pending.remove(k) && t.buffer == s.buffer.push((m.to, m.payload))
                && t.next_id == s.next_id && t.cursor == s.cursor
            &&& s.pending.contains_key(k) && m.retries > 0 && s.peers.len() > 0 && (
            m.to matches Some(id) && !s.peers.contains(id)) ==> acts == seq![
                Act::Arm { msg_id: new_id },
            ] && t.buffer == s.buffer && t.pending == s.pending.remove(k).insert(
                key(new_id),
                InFlight { to: m.to, payload: m.payload, retries: (m.retries - 1) as nat },
            ) && t.cursor == s.cursor
            &&& t.peers == s.peers
            &&& t.mode == s.mode
            &&& t.guarantee == s.guarantee
            &&& t.salt == s.salt
        }),
{
    let k = key(msg_id);
    if s.pending.contains_key(k) {
        let m = s.pending[k];
        assert(is_reliable(s, m.to));
        let without = BrokerState { pending: s.pending.remove(k), ..s };
        if m.retries > 0 && s.peers.len() > 0 {
            lemma_goes_out(without, m.to, m.payload, (m.retries - 1) as nat);
            if m.to matches Some(id) && !s.peers.contains(id) {
                assert(timed_out(s, msg_id).1 =~= seq![
                    Act::Arm { msg_id: s.salt + to_be(s.next_id, 8) },
                ]);
            }
        }
    }
}

/// A message leaves flight only by its own acknowledgement or by its own timer; whatever else
/// happens, it stays as it is. The counter has not come round.
pub proof fn lemma_stays_in_flight<W>(s: BrokerState, command: Command<W>, k: u128)
    requires
        sound(s),
        counted(s),
        s.next_id + s.buffer.len() < u64::MAX,
        s.pending.contains_key(k),
        stepped(s, command) is Some,
        !(command matches Command::Received { identity, envelope } && (
        envelope@ matches Message::Ack { msg_id } && key(msg_id) == k)),
        !(command matches Command::ResendTimeout { msg_id } && key(msg_id@) == k),
    ensures
        stepped(s, command) matches Some((t, acts)) && t.pending.contains_key(k) && t.pending[k]
            == s.pending[k],
{
    match command {
        Command::Send { identity, data } => {
            lemma_fresh_id(s);
        },
        Command::ConnectionUp { identity, writer } => {
            let joined = BrokerState { peers: s.peers.push(identity@), buffer: Seq::empty(), ..s };
            lemma_counted_from(s, joined);
            lemma_sent_all_keeps_flight(joined, s.buffer, k);
        },
        Command::ResendTimeout { msg_id } => {
            let without = BrokerState { pending: s.pending.remove(key(msg_id@)), ..s };
            lemma_counted_from(s, without);
            lemma_fresh_id(without);
            assert(without.pending.contains_key(k));
        },
        Command::ConnectionDown { identity } => {
            lemma_down_only_forgets(s, identity@);
        },
        Command::Received { identity, envelope } => {
            lemma_received_does(s, identity@, envelope@);
        },
        _ => {},
    }
}

proof fn lemma_sent_all_keeps_flight(
    s: BrokerState,
    items: Seq<(Option<Seq<u8>>, Seq<u8>)>,
    k: u128,
)
    requires
        s.salt.len() == 8,
        counted(s),
        s.next_id + items.len() < u64::MAX,
        s.pending.contains_key(k),
    ensures
        sent_all(s, items).0.pending.contains_key(k),
        sent_all(s, items).0.pending[k] == s.pending[k],
        sent_all(s, items).0.salt == s.salt,
    decreases items.len(),
{
    if items.len() > 0 {
        let first = items.drop_last();
        lemma_sent_all_keeps_flight(s, first, k);
        lemma_sent_all_counted(s, first);
        lemma_fresh_id(sent_all(s, first).0);
    }
}

/// Nothing is in flight without its timer: whatever a command puts in flight, it starts the
/// timer of; and whatever it takes out of flight by an acknowledgement, it stops the timer of.
pub proof fn lemma_flight_has_timer(s: BrokerState, to: Option<Seq<u8>>, payload: Seq<u8>, k: u128)
    ensures
        sent(s, to, payload).0.pending.contains_key(k) && !s.pending.contains_key(k) ==> exists|
            i: int,
        |
            0 <= i < sent(s, to, payload).1.len() && (#[trigger] sent(
                s,
                to,
                payload,
            ).1[i] matches Act::Arm { msg_id } && key(msg_id) == k),
{
    if sent(s, to, payload).0.pending.contains_key(k) && !s.pending.contains_key(k) {
        assert(sent(s, to, payload).1[0] == (Act::Arm { msg_id: id_of(s.salt, s.next_id) }));
    }
}

/// Each command is carried out as what it names, with all that it brings; only a close stops
/// the broker.
pub proof fn lemma_commands<W>(s: BrokerState, command: Command<W>)
    ensures
        stepped(s, command) is None <==> command is Close,
        match command {
            Command::Send { identity: Some(id), data } => stepped(s, command) == Some(
                sent(s, Some(id@), bytes_view(data)),
            ),
            Command::Send { identity: None, data } => stepped(s, command) == Some(
                sent(s, None, bytes_view(data)),
            ),
            Command::ConnectionUp { identity, writer } => stepped(s, command) == Some(
                connected(s, identity@),
            ),
            Command::ConnectionDown { identity } => stepped(s, command) == Some(
                (disconnected(s, identity@), Seq::<Act>::empty()),
            ),
            Command::Received { identity, envelope } => stepped(s, command) == Some(
                received(s, identity@, envelope@),
            ),
            Command::ResendTimeout { msg_id } => stepped(s, command) == Some(
                timed_out(s, msg_id@),
            ),
            Command::Close => true,
        },
{
}

} // verus!
