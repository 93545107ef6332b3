//! How a socket is set up: send mode, delivery guarantee, identity, reconnection.

use vstd::prelude::*;
use crate::protocol::Identity;

verus! {

/// How a socket distributes each sent message among its connected peers.
#[derive(Debug, Clone, Copy, PartialEq, Eq, Structural)]
pub enum SendMode {
    /// Each message goes to one peer, cycling through the peers.
    RoundRobin,
    /// Every connected peer gets a copy of each message.
    Publish,
}

/// Whether sends are acknowledged and retried.
#[derive(Debug, Clone, Copy, PartialEq, Eq, Structural)]
pub enum DeliveryGuarantee {
    /// Buffered while there are no peers, but never acknowledged or retried.
    AtMostOnce,
    /// Acknowledged and retried, in round-robin and to a named peer; not in publish.
    AtLeastOnce,
}

/// What can go wrong with a socket.
#[derive(Debug)]
pub enum Error {
    /// Input or output failed, for this reason.
    Io(String),
    /// The socket is closed.
    Closed,
    /// The address resolves to nothing.
    BadAddress,
    /// The name is neither a DNS name nor an IP address.
    InvalidServerName,
}

impl Error {
    /// What went wrong, in words.
    pub open spec fn text(self) -> Seq<char> {
        match self {
            Error::Io(reason) => "io error: "@ + reason@,
            Error::Closed => "socket is closed"@,
            Error::BadAddress => "could not resolve address"@,
            Error::InvalidServerName => "invalid TLS server name"@,
        }
    }

    /// What went wrong, in words.
    pub fn describe(&self) -> (r: String)
        ensures
            r@ == self.text(),
    {
        match self {
            Error::Io(reason) => {
                let mut s: String = "io error: ".to_string();
                s.append(reason.as_str());
                s
            },
            Error::Closed => "socket is closed".to_string(),
            Error::BadAddress => "could not resolve address".to_string(),
            Error::InvalidServerName => "invalid TLS server name".to_string(),
        }
    }
}

/// The delay before a reconnection attempt where no strategy is given, in milliseconds.
pub const DEFAULT_RECONNECT_DELAY_MS: u64 = 100;

/// The setup of a socket, whose delay before each reconnection attempt `F` says.
pub struct SocketBuilder<F> {
    pub send_mode: SendMode,
    pub delivery: DeliveryGuarantee,
    pub identity: Option<Identity>,
    pub reconnect_delay: Option<F>,
}

impl<F> Default for SocketBuilder<F> {
    /// Round-robin, at most once, a fresh identity, the default delay.
    fn default() -> (r: Self)
        ensures
            r.send_mode == SendMode::RoundRobin,
            r.delivery == DeliveryGuarantee::AtMostOnce,
            r.identity is None,
            r.reconnect_delay is None,
    {
        SocketBuilder {
            send_mode: SendMode::RoundRobin,
            delivery: DeliveryGuarantee::AtMostOnce,
            identity: None,
            reconnect_delay: None,
        }
    }
}

impl<F> SocketBuilder<F> {
    pub fn send_mode(self, mode: SendMode) -> (r: Self)
        ensures
            r == (SocketBuilder { send_mode: mode, ..self }),
    {
        SocketBuilder { send_mode: mode, ..self }
    }

    pub fn delivery_guarantee(self, guarantee: DeliveryGuarantee) -> (r: Self)
        ensures
            r == (SocketBuilder { delivery: guarantee, ..self }),
    {
        SocketBuilder { delivery: guarantee, ..self }
    }

    pub fn identity(self, identity: Identity) -> (r: Self)
        ensures
            r == (SocketBuilder { identity: Some(identity), ..self }),
    {
        SocketBuilder { identity: Some(identity), ..self }
    }

    /// Sets the strategy for the delay before each reconnection attempt; jitter there
    /// staggers a fleet that reconnects.
    pub fn reconnect_delay<G>(self, f: G) -> (r: SocketBuilder<G>)
        ensures
            r.send_mode == self.send_mode,
            r.delivery == self.delivery,
            r.identity == self.identity,
            r.reconnect_delay == Some(f),
    {
        SocketBuilder {
            send_mode: self.send_mode,
            delivery: self.delivery,
            identity: self.identity,
            reconnect_delay: Some(f),
        }
    }

    /// The identity chosen, or else `fresh`.
    pub fn identity_or(&self, fresh: Identity) -> (r: Identity)
        ensures
            r == (match self.identity {
                Some(id) => id,
                None => fresh,
            }),
    {
        match self.identity {
            Some(id) => id,
            None => fresh,
        }
    }
}

impl<F: Fn() -> u64> SocketBuilder<F> {
    /// The delay before the next reconnection attempt, in nanoseconds: what the strategy
    /// says, or else the default.
    pub fn next_delay(&self) -> (ns: u64)
        requires
            self.reconnect_delay matches Some(f) ==> f.requires(()),
        ensures
            match self.reconnect_delay {
                Some(f) => f.ensures((), ns),
                None => ns == DEFAULT_RECONNECT_DELAY_MS * 1_000_000,
            },
    {
        match &self.reconnect_delay {
            Some(f) => f(),
            None => DEFAULT_RECONNECT_DELAY_MS * 1_000_000,
        }
    }
}

/// Whatever goes wrong has words of its own, and what was said of a failed read or write is
/// passed on.
pub proof fn lemma_error_texts(reason: String)
    ensures
        Error::Io(reason).text().take(10) == "io error: "@,
        Error::Io(reason).text().skip(10) == reason@,
        Error::Closed.text() == "socket is closed"@,
        Error::BadAddress.text() == "could not resolve address"@,
        Error::InvalidServerName.text() == "invalid TLS server name"@,
{
    reveal_strlit("io error: ");
    assert(Error::Io(reason).text().take(10) =~= "io error: "@);
    assert(Error::Io(reason).text().skip(10) =~= reason@);
}

} // verus!
