//! Keeping connected: the loops that dial and that accept.

use vstd::prelude::*;

verus! {

/// Where a dialling loop stands.
#[derive(Clone, Copy, PartialEq, Eq, Structural)]
pub enum Dialling {
    /// Between attempts.
    Idle,
    /// An attempt is under way.
    Dialling,
    /// The connection is being served.
    Serving,
    /// The delay before the next attempt is running.
    Delaying,
    /// It is over.
    Over,
}

/// Something that happened to a dialling loop.
#[derive(Clone, Copy, PartialEq, Eq, Structural)]
pub enum DialEvent {
    /// It starts.
    Start,
    /// The attempt succeeded, or failed or took too long.
    Dialled(bool),
    /// The connection ended.
    Served,
    /// The delay is over.
    Delayed,
}

/// What a dialling loop does next.
#[derive(Debug, Clone, Copy, PartialEq, Eq, Structural)]
pub enum DialAction {
    /// Attempt to connect.
    Dial,
    /// Serve the connection.
    Serve,
    /// Wait for as long as the reconnection strategy says.
    Delay,
    /// Stop.
    Stop,
}

/// The next stage and action. A socket that closes stops the loop at the next look; a
/// connection that was established is served first.
pub open spec fn dial_next(s: Dialling, event: DialEvent, shutdown: bool) -> (
    Dialling,
    DialAction,
) {
    match (s, event) {
        (Dialling::Dialling, DialEvent::Dialled(true)) => (Dialling::Serving, DialAction::Serve),
        (Dialling::Idle, DialEvent::Start) => if shutdown {
            (Dialling::Over, DialAction::Stop)
        } else {
            (Dialling::Dialling, DialAction::Dial)
        },
        (Dialling::Delaying, DialEvent::Delayed) => if shutdown {
            (Dialling::Over, DialAction::Stop)
        } else {
            (Dialling::Dialling, DialAction::Dial)
        },
        (Dialling::Dialling, DialEvent::Dialled(false)) => if shutdown {
            (Dialling::Over, DialAction::Stop)
        } else {
            (Dialling::Delaying, DialAction::Delay)
        },
        (Dialling::Serving, DialEvent::Served) => if shutdown {
            (Dialling::Over, DialAction::Stop)
        } else {
            (Dialling::Delaying, DialAction::Delay)
        },
        _ => (Dialling::Over, DialAction::Stop),
    }
}

/// A loop that keeps a connection to one address for the life of its socket.
pub struct DialLoop {
    stage: Dialling,
}

impl View for DialLoop {
    type V = Dialling;

    closed spec fn view(&self) -> Dialling {
        self.stage
    }
}

impl DialLoop {
    pub fn new() -> (r: Self)
        ensures
            r@ == Dialling::Idle,
    {
        DialLoop { stage: Dialling::Idle }
    }

    /// Takes note of an event, `shutdown` saying whether the socket closes, and says what to
    /// do.
    pub fn step(&mut self, event: DialEvent, shutdown: bool) -> (r: DialAction)
        ensures
            (final(self)@, r) == dial_next(old(self)@, event, shutdown),
    {
        let (stage, action) = match (self.stage, event) {
            (Dialling::Dialling, DialEvent::Dialled(true)) => (
                Dialling::Serving,
                DialAction::Serve,
            ),
            (Dialling::Idle, DialEvent::Start) => if shutdown {
                (Dialling::Over, DialAction::Stop)
            } else {
                (Dialling::Dialling, DialAction::Dial)
            },
            (Dialling::Delaying, DialEvent::Delayed) => if shutdown {
                (Dialling::Over, DialAction::Stop)
            } else {
                (Dialling::Dialling, DialAction::Dial)
            },
            (Dialling::Dialling, DialEvent::Dialled(false)) => if shutdown {
                (Dialling::Over, DialAction::Stop)
            } else {
                (Dialling::Delaying, DialAction::Delay)
            },
            (Dialling::Serving, DialEvent::Served) => if shutdown {
                (Dialling::Over, DialAction::Stop)
            } else {
                (Dialling::Delaying, DialAction::Delay)
            },
            _ => (Dialling::Over, DialAction::Stop),
        };
        self.stage = stage;
        action
    }
}

/// A loop that is not told to stop goes on for ever: whatever comes of an attempt or of a
/// connection, another attempt follows, with a delay before it.
pub proof fn lemma_dials_again(connected: bool)
    ensures
        ({
            let (a, first) = dial_next(Dialling::Idle, DialEvent::Start, false);
            let (b, second) = dial_next(a, DialEvent::Dialled(connected), false);
            let (c, third) = if connected {
                dial_next(b, DialEvent::Served, false)
            } else {
                (b, second)
            };
            let (d, fourth) = dial_next(c, DialEvent::Delayed, false);
            &&& first == DialAction::Dial
            &&& connected ==> second == DialAction::Serve
            &&& third == DialAction::Delay
            &&& fourth == DialAction::Dial
            &&& d == a
        }),
{
}

/// A closing socket ends the loop: no attempt and no delay follows.
pub proof fn lemma_dial_heeds_shutdown(s: Dialling, event: DialEvent)
    ensures
        dial_next(s, event, true).1 == DialAction::Stop || dial_next(s, event, true).1
            == DialAction::Serve,
        dial_next(s, event, true).1 == DialAction::Serve ==> event == DialEvent::Dialled(true),
{
}

/// What an accepting loop does next.
#[derive(Clone, Copy, PartialEq, Eq, Structural)]
pub enum AcceptAction {
    /// Look for a connection.
    Accept,
    /// Start serving the connection.
    Serve,
    /// Wait before looking again.
    Pause,
    /// Stop.
    Stop,
}

/// What follows when a look for a connection found one or not. A look that fails is
/// repeated.
pub fn accept_next(found: bool) -> (r: AcceptAction)
    ensures
        r == (if found {
            AcceptAction::Serve
        } else {
            AcceptAction::Pause
        }),
{
    if found {
        AcceptAction::Serve
    } else {
        AcceptAction::Pause
    }
}

/// What follows at the top of an accepting loop.
pub fn accept_top(shutdown: bool) -> (r: AcceptAction)
    ensures
        r == (if shutdown {
            AcceptAction::Stop
        } else {
            AcceptAction::Accept
        }),
{
    if shutdown {
        AcceptAction::Stop
    } else {
        AcceptAction::Accept
    }
}

/// Whether to go on sleeping, of `total` nanoseconds of which `slept` have passed.
pub fn sleep_on(slept: u64, total: u64, shutdown: bool) -> (r: bool)
    ensures
        r == (slept < total && !shutdown),
{
    slept < total && !shutdown
}

/// Each action goes with the stage that awaits its outcome; a loop that is over stays so; and
/// an event that its stage does not await ends the loop.
pub proof fn lemma_dial_stages(s: Dialling, event: DialEvent, shutdown: bool)
    ensures
        ({
            let (t, action) = dial_next(s, event, shutdown);
            let awaited = match s {
                Dialling::Idle => event is Start,
                Dialling::Dialling => event is Dialled,
                Dialling::Serving => event is Served,
                Dialling::Delaying => event is Delayed,
                Dialling::Over => false,
            };
            &&& action == DialAction::Dial <==> t == Dialling::Dialling
            &&& action == DialAction::Serve <==> t == Dialling::Serving
            &&& action == DialAction::Delay <==> t == Dialling::Delaying
            &&& action == DialAction::Stop <==> t == Dialling::Over
            &&& action == DialAction::Stop <==> !awaited || shutdown && event
                != DialEvent::Dialled(true)
        }),
{
}

} // verus!
