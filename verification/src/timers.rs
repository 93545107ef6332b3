//! Resend timing. Moments are nanoseconds on a clock that never goes back.

use std::collections::{HashSet, VecDeque};
use vstd::prelude::*;
use vstd::std_specs::hash::group_hash_axioms;
use crate::be::{be, key_of, lemma_be_bound, pow256};
use crate::broker::{
    acts_of, fits, key, stepped, timed_out, Act, Action, Broker, BrokerState, Command,
};
use crate::buf::bytes_view;
use crate::protocol::{Identity, MsgId};

verus! {

broadcast use group_hash_axioms;

/// How long a message may stay unacknowledged before it is sent again.
pub const RESEND_TIMEOUT: u64 = 5_000_000_000;

// Timers on their own --------------------------------------------------------

/// The state of the resend timers: deadlines with their message ids in the order in which
/// they were set, and the ids, as numbers, whose timers still count.
pub struct TimerState {
    pub queue: Seq<(nat, Seq<u8>)>,
    pub armed: Set<u128>,
}

/// A timer is started at `now`.
pub open spec fn armed_at(s: TimerState, now: nat, msg_id: Seq<u8>) -> TimerState {
    TimerState {
        queue: s.queue.push((now + RESEND_TIMEOUT as nat, msg_id)),
        armed: s.armed.insert(key(msg_id)),
    }
}

/// A timer is stopped. Its deadline stays in the queue, and means nothing any more.
pub open spec fn cancelled(s: TimerState, msg_id: Seq<u8>) -> TimerState {
    TimerState { armed: s.armed.remove(key(msg_id)), ..s }
}

/// The deadlines at the front that have come by `now` are taken off; the timers among them
/// that still count go off.
pub open spec fn fired(s: TimerState, now: nat) -> (TimerState, Seq<Seq<u8>>)
    decreases s.queue.len(),
{
    if s.queue.len() == 0 || s.queue[0].0 > now {
        (s, Seq::empty())
    } else {
        let id = s.queue[0].1;
        let rest = TimerState { queue: s.queue.skip(1), armed: s.armed.remove(key(id)) };
        let (after, ids) = fired(rest, now);
        (
            after,
            if s.armed.contains(key(id)) {
                seq![id] + ids
            } else {
                ids
            },
        )
    }
}

/// A message to the timers.
pub enum TimerMsg {
    /// Start the timer of this message.
    Arm(MsgId),
    /// Stop the timer of this message.
    Cancel(MsgId),
    /// Stop altogether.
    Shutdown,
}

/// The resend timers of a broker.
pub struct ResendTimers {
    deadlines: VecDeque<(u64, MsgId)>,
    armed: HashSet<u128>,
}

impl View for ResendTimers {
    type V = TimerState;

    closed spec fn view(&self) -> TimerState {
        TimerState {
            queue: self.deadlines@.map_values(|d: (u64, MsgId)| (d.0 as nat, d.1@)),
            armed: self.armed@,
        }
    }
}

/// The views of some message ids.
pub open spec fn ids_of(ids: Seq<MsgId>) -> Seq<Seq<u8>> {
    ids.map_values(|id: MsgId| id@)
}

proof fn lemma_key_of(id: Seq<u8>)
    requires
        id.len() == 16,
    ensures
        key(id) == be(id),
{
    reveal_with_fuel(pow256, 17);
    lemma_be_bound(id);
}

impl ResendTimers {
    pub fn new() -> (r: Self)
        ensures
            r@ == (TimerState { queue: Seq::empty(), armed: Set::empty() }),
    {
        let r = ResendTimers { deadlines: VecDeque::new(), armed: HashSet::new() };
        assert(r@.queue =~= Seq::empty());
        r
    }

    /// Starts the timer of a message.
    pub fn arm(&mut self, now: u64, msg_id: MsgId)
        requires
            now + RESEND_TIMEOUT <= u64::MAX,
        ensures
            final(self)@ == armed_at(old(self)@, now as nat, msg_id@),
    {
        let k: u128 = key_of(&msg_id);
        proof {
            lemma_key_of(msg_id@);
        }
        self.deadlines.push_back((now + RESEND_TIMEOUT, msg_id));
        self.armed.insert(k);
        assert(self@.queue =~= armed_at(old(self)@, now as nat, msg_id@).queue);
        assert(self@.armed =~= armed_at(old(self)@, now as nat, msg_id@).armed);
    }

    /// Stops the timer of a message.
    pub fn cancel(&mut self, msg_id: MsgId)
        ensures
            final(self)@ == cancelled(old(self)@, msg_id@),
    {
        let k: u128 = key_of(&msg_id);
        proof {
            lemma_key_of(msg_id@);
        }
        self.armed.remove(&k);
        assert(self@.armed =~= cancelled(old(self)@, msg_id@).armed);
    }

    /// How long to wait for the first deadline, if there is one.
    pub fn wait(&self, now: u64) -> (r: Option<u64>)
        ensures
            match r {
                None => self@.queue.len() == 0,
                Some(t) => self@.queue.len() > 0 && t == if self@.queue[0].0 > now {
                    self@.queue[0].0 - now
                } else {
                    0
                },
            },
    {
        if self.deadlines.len() == 0 {
            None
        } else {
            Some(self.deadlines[0].0.saturating_sub(now))
        }
    }

    /// The messages whose timers go off by `now`.
    pub fn fire_due(&mut self, now: u64) -> (r: Vec<MsgId>)
        ensures
            (final(self)@, ids_of(r@)) == fired(old(self)@, now as nat),
    {
        let mut out: Vec<MsgId> = Vec::new();
        assert(ids_of(out@) =~= Seq::empty());
        assert(ids_of(out@) + fired(self@, now as nat).1 =~= fired(self@, now as nat).1);
        while self.deadlines.len() > 0 && self.deadlines[0].0 <= now
            invariant
                fired(old(self)@, now as nat) == (
                    fired(self@, now as nat).0,
                    ids_of(out@) + fired(self@, now as nat).1,
                ),
            decreases self.deadlines@.len(),
        {
            let ghost s = self@;
            let ghost had = ids_of(out@);
            match self.deadlines.pop_front() {
                None => {},
                Some((_, msg_id)) => {
                    let k: u128 = key_of(&msg_id);
                    proof {
                        lemma_key_of(msg_id@);
                        assert(s.queue[0].1 == msg_id@);
                    }
                    if self.armed.remove(&k) {
                        out.push(msg_id);
                        assert(ids_of(out@) =~= had + seq![msg_id@]);
                    }
                    proof {
                        let rest = TimerState {
                            queue: s.queue.skip(1),
                            armed: s.armed.remove(key(msg_id@)),
                        };
                        assert(self@.queue =~= rest.queue);
                        assert(self@.armed =~= rest.armed);
                        assert(ids_of(out@) + fired(self@, now as nat).1 =~= had + fired(
                            s,
                            now as nat,
                        ).1);
                    }
                },
            }
        }
        proof {
            if self@.queue.len() > 0 {
                assert(self@.queue[0].0 == self.deadlines@[0].0);
            }
            assert(ids_of(out@) + Seq::<Seq<u8>>::empty() =~= ids_of(out@));
        }
        out
    }

    /// One turn of the timers: takes in a message that came at `now`, if one came before
    /// the first deadline, and then says which timers have gone off by `after`. `None` when
    /// told to stop.
    pub fn turn(&mut self, msg: Option<TimerMsg>, now: u64, after: u64) -> (r: Option<Vec<MsgId>>)
        requires
            now + RESEND_TIMEOUT <= u64::MAX,
        ensures
            match r {
                None => msg == Some(TimerMsg::Shutdown) && final(self)@ == old(self)@,
                Some(ids) => msg != Some(TimerMsg::Shutdown) && (final(self)@, ids_of(ids@))
                    == fired(
                    match msg {
                        Some(TimerMsg::Arm(id)) => armed_at(old(self)@, now as nat, id@),
                        Some(TimerMsg::Cancel(id)) => cancelled(old(self)@, id@),
                        _ => old(self)@,
                    },
                    after as nat,
                ),
            },
    {
        match msg {
            Some(TimerMsg::Arm(id)) => {
                self.arm(now, id);
            },
            Some(TimerMsg::Cancel(id)) => {
                self.cancel(id);
            },
            Some(TimerMsg::Shutdown) => {
                return None;
            },
            None => {},
        }
        Some(self.fire_due(after))
    }
}

// What the timers guarantee --------------------------------------------------

/// Deadlines stand in the order in which they come.
pub open spec fn ascending(queue: Seq<(nat, Seq<u8>)>) -> bool {
    forall|i: int, j: int|
        0 <= i <= j < queue.len() ==> (#[trigger] queue[i]).0 <= (#[trigger] queue[j]).0
}

/// The deadlines of the timers stand in the order in which they come.
pub open spec fn in_order(s: TimerState) -> bool {
    ascending(s.queue)
}

/// No message id stands twice.
pub open spec fn ids_distinct(s: TimerState) -> bool {
    forall|i: int, j: int|
        0 <= i < j < s.queue.len() ==> key((#[trigger] s.queue[i]).1) != key(
            (#[trigger] s.queue[j]).1,
        )
}

/// As the clock never goes back, a new deadline comes last.
pub proof fn lemma_arm_in_order(s: TimerState, now: nat, msg_id: Seq<u8>)
    requires
        in_order(s),
        s.queue.len() > 0 ==> s.queue.last().0 <= now + RESEND_TIMEOUT,
    ensures
        in_order(armed_at(s, now, msg_id)),
{
    let t = armed_at(s, now, msg_id);
    assert forall|i: int, j: int| 0 <= i <= j < t.queue.len() implies (#[trigger] t.queue[i]).0
        <= (#[trigger] t.queue[j]).0 by {
        if j == s.queue.len() && i < j {
            assert(t.queue[i] == s.queue[i]);
            assert(s.queue[i].0 <= s.queue[s.queue.len() - 1].0);
        }
    }
}

/// A timer that was stopped does not go off.
pub proof fn lemma_cancelled_stays_silent(s: TimerState, now: nat, msg_id: Seq<u8>)
    requires
        !s.armed.contains(key(msg_id)),
    ensures
        !fired(s, now).1.contains(msg_id),
        !fired(s, now).0.armed.contains(key(msg_id)),
    decreases s.queue.len(),
{
    if s.queue.len() > 0 && s.queue[0].0 <= now {
        let id = s.queue[0].1;
        let rest = TimerState { queue: s.queue.skip(1), armed: s.armed.remove(key(id)) };
        lemma_cancelled_stays_silent(rest, now, msg_id);
        let ids = fired(rest, now).1;
        if s.armed.contains(key(id)) && (seq![id] + ids).contains(msg_id) {
            let i = (seq![id] + ids).index_of(msg_id);
            if i > 0 {
                assert(ids[i - 1] == msg_id);
            }
        }
    }
}

/// A timer goes off if and only if its deadline has come and it was not stopped; and then
/// it goes off no more.
pub proof fn lemma_fired_exactly(s: TimerState, now: nat, i: int)
    requires
        in_order(s),
        ids_distinct(s),
        0 <= i < s.queue.len(),
    ensures
        fired(s, now).1.contains(s.queue[i].1) == (s.queue[i].0 <= now && s.armed.contains(
            key(s.queue[i].1),
        )),
        s.queue[i].0 <= now ==> !fired(s, now).0.armed.contains(key(s.queue[i].1)),
        s.queue[i].0 > now ==> (fired(s, now).0.armed.contains(key(s.queue[i].1))
            == s.armed.contains(key(s.queue[i].1))),
    decreases s.queue.len(),
{
    let (due, first) = s.queue[0];
    if due > now {
        assert(s.queue[0].0 <= s.queue[i].0);
    } else {
        let rest = TimerState { queue: s.queue.skip(1), armed: s.armed.remove(key(first)) };
        let ids = fired(rest, now).1;
        let all = fired(s, now).1;
        assert forall|a: int, b: int| 0 <= a <= b < rest.queue.len() implies (
        #[trigger] rest.queue[a]).0 <= (#[trigger] rest.queue[b]).0 by {
            assert(rest.queue[a] == s.queue[a + 1]);
            assert(rest.queue[b] == s.queue[b + 1]);
        }
        assert forall|a: int, b: int| 0 <= a < b < rest.queue.len() implies key(
            (#[trigger] rest.queue[a]).1,
        ) != key((#[trigger] rest.queue[b]).1) by {
            assert(rest.queue[a] == s.queue[a + 1]);
            assert(rest.queue[b] == s.queue[b + 1]);
        }
        if i == 0 {
            lemma_cancelled_stays_silent(rest, now, first);
            if s.armed.contains(key(first)) {
                assert(all[0] == first);
            }
        } else {
            lemma_fired_exactly(rest, now, i - 1);
            let id = s.queue[i].1;
            assert(rest.queue[i - 1] == s.queue[i]);
            assert(key(s.queue[0].1) != key(s.queue[i].1));
            if s.armed.contains(key(first)) {
                if ids.contains(id) {
                    let a = ids.index_of(id);
                    assert(all[a + 1] == id);
                }
                if all.contains(id) {
                    let a = all.index_of(id);
                    assert(a > 0);
                    assert(ids[a - 1] == id);
                }
            }
        }
    }
}

// A broker with its own deadlines --------------------------------------------

/// The deadlines that some acts set, `at` being when each comes.
pub open spec fn deadlines_of(acts: Seq<Act>, at: nat) -> Seq<(nat, Seq<u8>)>
    decreases acts.len(),
{
    if acts.len() == 0 {
        Seq::empty()
    } else {
        deadlines_of(acts.drop_last(), at) + match acts.last() {
            Act::Arm { msg_id } => seq![(at, msg_id)],
            _ => Seq::empty(),
        }
    }
}

/// The acts that concern others than the timers.
pub open spec fn outward(acts: Seq<Act>) -> Seq<Act>
    decreases acts.len(),
{
    if acts.len() == 0 {
        Seq::empty()
    } else {
        outward(acts.drop_last()) + match acts.last() {
            Act::Arm { msg_id } => Seq::empty(),
            Act::Cancel { msg_id } => Seq::empty(),
            act => seq![act],
        }
    }
}

/// The timers of some messages run out one after the other.
pub open spec fn timed_out_all(s: BrokerState, ids: Seq<Seq<u8>>) -> (BrokerState, Seq<Act>)
    decreases ids.len(),
{
    if ids.len() == 0 {
        (s, Seq::empty())
    } else {
        let (before, acts) = timed_out_all(s, ids.drop_last());
        let (after, more) = timed_out(before, ids.last());
        (after, acts + more)
    }
}

/// How many deadlines at the front of `queue` have come by `now`.
pub open spec fn due(queue: Seq<(nat, Seq<u8>)>, now: nat) -> nat
    decreases queue.len(),
{
    if queue.len() == 0 || queue[0].0 > now {
        0
    } else {
        1 + due(queue.skip(1), now)
    }
}

/// The message ids of the first `n` deadlines.
pub open spec fn first_ids(queue: Seq<(nat, Seq<u8>)>, n: nat) -> Seq<Seq<u8>> {
    Seq::new(n, |i: int| queue[i].1)
}

/// A broker that keeps its own resend deadlines. A deadline whose message is no longer in
/// flight when it comes means nothing.
pub struct TimedBroker<W> {
    broker: Broker<W>,
    deadlines: VecDeque<(u64, MsgId)>,
}

proof fn lemma_split_push(acts: Seq<Act>, act: Act, at: nat)
    ensures
        deadlines_of(acts.push(act), at) == deadlines_of(acts, at) + (match act {
            Act::Arm { msg_id } => seq![(at, msg_id)],
            _ => Seq::empty(),
        }),
        outward(acts.push(act)) == outward(acts) + (match act {
            Act::Arm { msg_id } => Seq::empty(),
            Act::Cancel { msg_id } => Seq::empty(),
            a => seq![a],
        }),
{
    assert(acts.push(act).drop_last() =~= acts);
}

proof fn lemma_split_add(a: Seq<Act>, b: Seq<Act>, at: nat)
    ensures
        deadlines_of(a + b, at) == deadlines_of(a, at) + deadlines_of(b, at),
        outward(a + b) == outward(a) + outward(b),
    decreases b.len(),
{
    if b.len() == 0 {
        assert(a + b =~= a);
        assert(deadlines_of(a, at) + deadlines_of(b, at) =~= deadlines_of(a, at));
        assert(outward(a) + outward(b) =~= outward(a));
    } else {
        lemma_split_add(a, b.drop_last(), at);
        assert((a + b).drop_last() =~= a + b.drop_last());
        assert((a + b).last() == b.last());
        assert(deadlines_of(a + b, at) =~= deadlines_of(a, at) + deadlines_of(b, at));
        assert(outward(a + b) =~= outward(a) + outward(b));
    }
}

proof fn lemma_deadlines_at(acts: Seq<Act>, at: nat)
    ensures
        forall|i: int|
            0 <= i < deadlines_of(acts, at).len() ==> (#[trigger] deadlines_of(acts, at)[i]).0
                == at,
    decreases acts.len(),
{
    if acts.len() > 0 {
        lemma_deadlines_at(acts.drop_last(), at);
        let first = deadlines_of(acts.drop_last(), at);
        assert forall|i: int| 0 <= i < deadlines_of(acts, at).len() implies (
        #[trigger] deadlines_of(acts, at)[i]).0 == at by {
            if i < first.len() {
                assert(deadlines_of(acts, at)[i] == first[i]);
            }
        }
    }
}

/// If the first `n` deadlines have come, and the next has not or there is none, `n` are due.
proof fn lemma_due_step(queue: Seq<(nat, Seq<u8>)>, now: nat, n: nat)
    requires
        n <= queue.len(),
        forall|i: int| 0 <= i < n ==> (#[trigger] queue[i]).0 <= now,
    ensures
        n == queue.len() || queue[n as int].0 > now ==> due(queue, now) == n,
    decreases queue.len(),
{
    if n > 0 {
        let rest = queue.skip(1);
        assert(queue[0].0 <= now);
        assert forall|i: int| 0 <= i < n - 1 implies (#[trigger] rest[i]).0 <= now by {
            assert(rest[i] == queue[i + 1]);
        }
        lemma_due_step(rest, now, (n - 1) as nat);
        if n < queue.len() {
            assert(rest[n - 1] == queue[n as int]);
        }
    }
}

/// As the clock never goes back, the deadlines that a broker keeps stay in order, whatever
/// comes off the front and whatever acts set new ones.
pub proof fn lemma_deadlines_ascend(
    queue: Seq<(nat, Seq<u8>)>,
    n: nat,
    acts: Seq<Act>,
    at: nat,
)
    requires
        ascending(queue),
        n <= queue.len(),
        forall|i: int| 0 <= i < queue.len() ==> (#[trigger] queue[i]).0 <= at,
    ensures
        ascending(queue.skip(n as int) + deadlines_of(acts, at)),
        forall|i: int|
            0 <= i < (queue.skip(n as int) + deadlines_of(acts, at)).len() ==> (
            #[trigger] (queue.skip(n as int) + deadlines_of(acts, at))[i]).0 <= at,
{
    lemma_deadlines_at(acts, at);
    let rest = queue.skip(n as int);
    let new = deadlines_of(acts, at);
    let all = rest + new;
    assert forall|i: int| 0 <= i < all.len() implies (#[trigger] all[i]).0 <= at && (i
        < rest.len() ==> all[i] == queue[n + i]) && (i >= rest.len() ==> all[i].0 == at) by {
        if i >= rest.len() {
            assert(all[i] == new[i - rest.len()]);
        }
    }
    assert forall|i: int, j: int| 0 <= i <= j < all.len() implies (#[trigger] all[i]).0 <= (
    #[trigger] all[j]).0 by {}
}

/// A deadline is dealt with if and only if it has come.
pub proof fn lemma_due_exactly(queue: Seq<(nat, Seq<u8>)>, now: nat, i: int)
    requires
        ascending(queue),
        0 <= i < queue.len(),
    ensures
        i < due(queue, now) <==> queue[i].0 <= now,
        due(queue, now) <= queue.len(),
    decreases queue.len(),
{
    let rest = queue.skip(1);
    if queue[0].0 <= now {
        assert forall|a: int, b: int| 0 <= a <= b < rest.len() implies (#[trigger] rest[a]).0 <= (
        #[trigger] rest[b]).0 by {
            assert(rest[a] == queue[a + 1]);
            assert(rest[b] == queue[b + 1]);
        }
        if i > 0 {
            lemma_due_exactly(rest, now, i - 1);
        } else if rest.len() > 0 {
            lemma_due_exactly(rest, now, 0);
        }
    } else {
        assert(queue[0].0 <= queue[i].0);
    }
}

impl<W> TimedBroker<W> {
    pub closed spec fn wf(self) -> bool {
        self.broker.wf()
    }

    /// The state of the broker.
    pub closed spec fn state(self) -> BrokerState {
        self.broker@
    }

    /// The deadlines, in the order in which they were set.
    pub closed spec fn queue(self) -> Seq<(nat, Seq<u8>)> {
        self.deadlines@.map_values(|d: (u64, MsgId)| (d.0 as nat, d.1@))
    }

    /// The ways to the peers.
    pub closed spec fn writers(self) -> Map<u128, W> {
        self.broker.writers()
    }

    pub fn new(broker: Broker<W>) -> (r: Self)
        requires
            broker.wf(),
        ensures
            r.wf(),
            r.state() == broker@,
            r.queue() == Seq::<(nat, Seq<u8>)>::empty(),
            r.writers() == broker.writers(),
    {
        let r = TimedBroker { broker, deadlines: VecDeque::new() };
        assert(r.queue() =~= Seq::<(nat, Seq<u8>)>::empty());
        r
    }

    /// The first deadline, if there is one.
    pub fn next_deadline(&self) -> (r: Option<u64>)
        ensures
            match r {
                None => self.queue().len() == 0,
                Some(t) => self.queue().len() > 0 && t == self.queue()[0].0,
            },
    {
        if self.deadlines.len() == 0 {
            None
        } else {
            Some(self.deadlines[0].0)
        }
    }

    /// The way to a connected peer.
    pub fn writer(&self, identity: &Identity) -> (r: Option<&W>)
        requires
            self.wf(),
        ensures
            match r {
                Some(w) => self.state().peers.contains(identity@) && *w == self.writers()[key(
                    identity@,
                )],
                None => !self.state().peers.contains(identity@),
            },
    {
        self.broker.writer(identity)
    }

    /// Sets the deadlines among `actions` and appends the others to `out`.
    fn settle(&mut self, actions: Vec<Action>, at: u64, out: &mut Vec<Action>)
        ensures
            final(self).broker == old(self).broker,
            final(self).queue() == old(self).queue() + deadlines_of(acts_of(actions@), at as nat),
            acts_of(final(out)@) == acts_of(old(out)@) + outward(acts_of(actions@)),
    {
        let ghost all = acts_of(actions@);
        let ghost queue = self.queue();
        let ghost before = acts_of(out@);
        let mut i: usize = 0;
        assert(all.take(0) =~= Seq::empty());
        assert(self.queue() =~= queue + deadlines_of(all.take(0), at as nat));
        assert(acts_of(out@) =~= before + outward(all.take(0)));
        while i < actions.len()
            invariant
                i <= actions@.len(),
                all == acts_of(actions@),
                self.broker == old(self).broker,
                self.queue() == queue + deadlines_of(all.take(i as int), at as nat),
                acts_of(out@) == before + outward(all.take(i as int)),
            decreases actions@.len() - i,
        {
            let ghost act = all[i as int];
            let ghost had = self.queue();
            let ghost shown = acts_of(out@);
            assert(actions@[i as int]@ == act);
            proof {
                lemma_split_push(all.take(i as int), act, at as nat);
                assert(all.take(i as int).push(act) =~= all.take(i + 1));
            }
            match &actions[i] {
                Action::Arm { msg_id } => {
                    self.deadlines.push_back((at, *msg_id));
                    assert(self.queue() =~= had.push((at as nat, msg_id@)));
                },
                Action::Cancel { .. } => {},
                Action::Transmit { to, envelope } => {
                    out.push(Action::Transmit { to: *to, envelope: envelope.clone() });
                    assert(acts_of(out@) =~= shown.push(act));
                },
                Action::Deliver { from, payload } => {
                    out.push(Action::Deliver { from: *from, payload: payload.clone() });
                    assert(acts_of(out@) =~= shown.push(act));
                },
                Action::Accept { accepted } => {
                    out.push(Action::Accept { accepted: *accepted });
                    assert(acts_of(out@) =~= shown.push(act));
                },
            }
            i = i + 1;
            assert(self.queue() =~= queue + deadlines_of(all.take(i as int), at as nat));
            assert(acts_of(out@) =~= before + outward(all.take(i as int)));
        }
        assert(all.take(i as int) =~= all);
    }

    /// Carries out one command at `now`: the actions that follow, or `None` when told to
    /// stop.
    pub fn step(&mut self, command: Command<W>, now: u64) -> (r: Option<Vec<Action>>)
        requires
            old(self).wf(),
            now + RESEND_TIMEOUT <= u64::MAX,
            command matches Command::Send { identity, data } ==> fits(bytes_view(data)),
        ensures
            final(self).wf(),
            match stepped(old(self).state(), command) {
                None => r is None && final(self).state() == old(self).state() && final(self).queue() == old(self).queue(),
                Some((after, acts)) => r is Some && acts_of(r->0@) == outward(acts) && final(self).state() == after && final(self).queue() == old(self).queue() + deadlines_of(
                    acts,
                    (now + RESEND_TIMEOUT) as nat,
                ),
            },
            final(self).writers() == (match command {
                Command::ConnectionUp { identity, writer } => if old(self).state().peers.contains(identity@) {
                    old(self).writers()
                } else {
                    old(self).writers().insert(key(identity@), writer)
                },
                Command::ConnectionDown { identity } => old(self).writers().remove(key(identity@)),
                _ => old(self).writers(),
            }),
    {
        match self.broker.step(command) {
            None => None,
            Some(actions) => {
                let mut out: Vec<Action> = Vec::new();
                assert(acts_of(out@) =~= Seq::<Act>::empty());
                let ghost acts = acts_of(actions@);
                self.settle(actions, now + RESEND_TIMEOUT, &mut out);
                assert(acts_of(out@) =~= outward(acts));
                Some(out)
            },
        }
    }

    /// Deals with every deadline that has come by `now`.
    pub fn fire_due_resends(&mut self, now: u64) -> (r: Vec<Action>)
        requires
            old(self).wf(),
            now + RESEND_TIMEOUT <= u64::MAX,
        ensures
            final(self).wf(),
            ({
                let queue = old(self).queue();
                let n = due(queue, now as nat);
                let (after, acts) = timed_out_all(old(self).state(), first_ids(queue, n));
                &&& final(self).state() == after
                &&& acts_of(r@) == outward(acts)
                &&& final(self).queue() == queue.skip(n as int) + deadlines_of(
                    acts,
                    (now + RESEND_TIMEOUT) as nat,
                )
            }),
            final(self).writers() == old(self).writers(),
    {
        let ghost queue = self.queue();
        let ghost start = self.state();
        let ghost at = (now + RESEND_TIMEOUT) as nat;
        let ghost mut n: nat = 0;
        let mut out: Vec<Action> = Vec::new();
        assert(acts_of(out@) =~= Seq::<Act>::empty());
        assert(first_ids(queue, 0) =~= Seq::empty());
        assert(outward(Seq::<Act>::empty()) =~= Seq::empty());
        assert(self.queue() =~= queue.skip(0) + deadlines_of(Seq::<Act>::empty(), at));
        while self.deadlines.len() > 0 && self.deadlines[0].0 <= now
            invariant
                self.wf(),
                self.writers() == old(self).writers(),
                now + RESEND_TIMEOUT <= u64::MAX,
                at == now + RESEND_TIMEOUT,
                n <= queue.len(),
                forall|i: int| 0 <= i < n ==> (#[trigger] queue[i]).0 <= now,
                self.state() == timed_out_all(start, first_ids(queue, n)).0,
                acts_of(out@) == outward(timed_out_all(start, first_ids(queue, n)).1),
                self.queue() == queue.skip(n as int) + deadlines_of(
                    timed_out_all(start, first_ids(queue, n)).1,
                    at,
                ),
            decreases queue.len() - n,
        {
            let ghost acts = timed_out_all(start, first_ids(queue, n)).1;
            let ghost held = self.queue();
            proof {
                lemma_deadlines_at(acts, at);
                assert(held[0].0 == self.deadlines@[0].0);
                if n == queue.len() {
                    assert(held[0] == deadlines_of(acts, at)[0]);
                }
                assert(n < queue.len());
                assert(held[0] == queue[n as int]);
            }
            match self.deadlines.pop_front() {
                None => {},
                Some((_, msg_id)) => {
                    assert(held[0].1 == msg_id@);
                    assert(self.queue() =~= held.skip(1));
                    let actions: Vec<Action> = self.broker.handle_resend(msg_id);
                    let ghost more = acts_of(actions@);
                    self.settle(actions, now + RESEND_TIMEOUT, &mut out);
                    proof {
                        let next = first_ids(queue, n + 1);
                        assert(next.drop_last() =~= first_ids(queue, n));
                        assert(next.last() == msg_id@);
                        lemma_split_add(acts, more, at);
                        n = n + 1;
                        assert(self.queue() =~= queue.skip(n as int) + deadlines_of(
                            acts + more,
                            at,
                        ));
                    }
                },
            }
        }
        proof {
            let acts = timed_out_all(start, first_ids(queue, n)).1;
            if n < queue.len() {
                assert(self.queue()[0] == queue[n as int]);
                assert(self.queue()[0].0 == self.deadlines@[0].0);
            }
            lemma_due_step(queue, now as nat, n);
        }
        out
    }
}

/// Starting a timer sets one deadline, five seconds ahead, behind the others; stopping one
/// takes no deadline away. Neither touches another timer.
pub proof fn lemma_arm_and_cancel(s: TimerState, now: nat, msg_id: Seq<u8>, other: u128)
    ensures
        ({
            let on = armed_at(s, now, msg_id);
            let off = cancelled(s, msg_id);
            &&& on.queue == s.queue.push((now + 5_000_000_000, msg_id))
            &&& on.armed.contains(key(msg_id))
            &&& off.queue == s.queue
            &&& !off.armed.contains(key(msg_id))
            &&& other != key(msg_id) ==> on.armed.contains(other) == s.armed.contains(other)
                && off.armed.contains(other) == s.armed.contains(other)
        }),
{
}

/// The message ids at the front of `queue`, `n` of them, whose timers count.
pub open spec fn counting(queue: Seq<(nat, Seq<u8>)>, armed: Set<u128>, n: nat) -> Seq<Seq<u8>>
    decreases n,
{
    if n == 0 {
        Seq::empty()
    } else {
        let before = counting(queue, armed, (n - 1) as nat);
        if armed.contains(key(queue[n - 1].1)) {
            before.push(queue[n - 1].1)
        } else {
            before
        }
    }
}

proof fn lemma_counting_first(queue: Seq<(nat, Seq<u8>)>, armed: Set<u128>, n: nat)
    requires
        1 <= n <= queue.len(),
        forall|i: int, j: int|
            0 <= i < j < queue.len() ==> key((#[trigger] queue[i]).1) != key(
                (#[trigger] queue[j]).1,
            ),
    ensures
        counting(queue, armed, n) == (if armed.contains(key(queue[0].1)) {
            seq![queue[0].1]
        } else {
            Seq::empty()
        }) + counting(queue.skip(1), armed.remove(key(queue[0].1)), (n - 1) as nat),
    decreases n,
{
    let first = if armed.contains(key(queue[0].1)) {
        seq![queue[0].1]
    } else {
        Seq::empty()
    };
    let less = armed.remove(key(queue[0].1));
    if n == 1 {
        assert(counting(queue, armed, 0) =~= Seq::empty());
        assert(counting(queue, armed, 1) =~= first + counting(queue.skip(1), less, 0));
    } else {
        lemma_counting_first(queue, armed, (n - 1) as nat);
        assert(queue.skip(1)[n - 2] == queue[n - 1]);
        assert(key(queue[0].1) != key(queue[n - 1].1));
        assert(counting(queue, armed, n) =~= first + counting(
            queue.skip(1),
            less,
            (n - 1) as nat,
        ));
    }
}

/// The timers that go off are those that count among the deadlines that have come, each once
/// and in the order in which they were started; those deadlines are gone and the others stay.
pub proof fn lemma_fired_is(s: TimerState, now: nat)
    requires
        ids_distinct(s),
    ensures
        ({
            let n = due(s.queue, now);
            let (t, ids) = fired(s, now);
            &&& n <= s.queue.len()
            &&& ids == counting(s.queue, s.armed, n)
            &&& t.queue == s.queue.skip(n as int)
            &&& forall|k: u128| #[trigger]
                t.armed.contains(k) <==> s.armed.contains(k) && forall|i: int|
                    0 <= i < n ==> key((#[trigger] s.queue[i]).1) != k
        }),
    decreases s.queue.len(),
{
    let n = due(s.queue, now);
    let (t, ids) = fired(s, now);
    if s.queue.len() == 0 || s.queue[0].0 > now {
        assert(s.queue.skip(0) =~= s.queue);
    } else {
        let id = s.queue[0].1;
        let rest = TimerState { queue: s.queue.skip(1), armed: s.armed.remove(key(id)) };
        assert forall|a: int, b: int| 0 <= a < b < rest.queue.len() implies key(
            (#[trigger] rest.queue[a]).1,
        ) != key((#[trigger] rest.queue[b]).1) by {
            assert(rest.queue[a] == s.queue[a + 1]);
            assert(rest.queue[b] == s.queue[b + 1]);
        }
        lemma_fired_is(rest, now);
        lemma_counting_first(s.queue, s.armed, n);
        assert(s.queue.skip(1).skip(n - 1) =~= s.queue.skip(n as int));
        assert(ids =~= counting(s.queue, s.armed, n));
        assert forall|k: u128| #[trigger]
            t.armed.contains(k) <==> s.armed.contains(k) && forall|i: int|
                0 <= i < n ==> key((#[trigger] s.queue[i]).1) != k by {
            if t.armed.contains(k) {
                assert forall|i: int| 0 <= i < n implies key((#[trigger] s.queue[i]).1) != k by {
                    if i > 0 {
                        assert(rest.queue[i - 1] == s.queue[i]);
                    }
                }
            }
            if s.armed.contains(k) && forall|i: int|
                0 <= i < n ==> key((#[trigger] s.queue[i]).1) != k {
                assert(key(s.queue[0].1) != k);
                assert forall|i: int| 0 <= i < n - 1 implies key((#[trigger] rest.queue[i]).1)
                    != k by {
                    assert(rest.queue[i] == s.queue[i + 1]);
                }
            }
        }
    }
}

/// Of some acts, the starts of timers become deadlines and the others but the stops are passed
/// on, in order and one for one.
pub proof fn lemma_acts_sorted(acts: Seq<Act>, more: Seq<Act>, act: Act, at: nat)
    ensures
        deadlines_of(acts + more, at) == deadlines_of(acts, at) + deadlines_of(more, at),
        outward(acts + more) == outward(acts) + outward(more),
        act is Transmit || act is Deliver || act is Accept ==> outward(acts.push(act)) == outward(
            acts,
        ).push(act) && deadlines_of(acts.push(act), at) == deadlines_of(acts, at),
        act is Cancel ==> outward(acts.push(act)) == outward(acts) && deadlines_of(
            acts.push(act),
            at,
        ) == deadlines_of(acts, at),
        act matches Act::Arm { msg_id } ==> outward(acts.push(act)) == outward(acts)
            && deadlines_of(acts.push(act), at) == deadlines_of(acts, at).push((at, msg_id)),
        deadlines_of(Seq::empty(), at).len() == 0,
        outward(Seq::empty()).len() == 0,
{
    lemma_split_add(acts, more, at);
    lemma_split_push(acts, act, at);
    assert(acts.push(act).drop_last() =~= acts);
    assert(outward(acts) + Seq::<Act>::empty() =~= outward(acts));
    assert(deadlines_of(acts, at) + Seq::<(nat, Seq<u8>)>::empty() =~= deadlines_of(acts, at));
}

/// Timers that run out together are dealt with one after the other, as each would be alone.
pub proof fn lemma_timed_out_in_turn(s: BrokerState, ids: Seq<Seq<u8>>, id: Seq<u8>)
    ensures
        timed_out_all(s, Seq::empty()) == (s, Seq::<Act>::empty()),
        ({
            let (t, acts) = timed_out_all(s, ids);
            let (u, more) = timed_out(t, id);
            timed_out_all(s, ids.push(id)) == (u, acts + more)
        }),
{
    assert(ids.push(id).drop_last() =~= ids);
}

} // verus!
