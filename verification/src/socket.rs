//! Sockets as a whole: how one is built, what it allows when, how it is closed.

use rustls::pki_types::{InvalidDnsNameError, ServerName};
use vstd::prelude::*;
use crate::broker::{Broker, BrokerState, Command};
use crate::config::{Error, SocketBuilder};
use crate::guarantees::{lemma_nothing_behind_close, taken_of};
use crate::ids::fresh_uuid;
use crate::protocol::Identity;

verus! {

/// What a socket is made of: who it is, and the broker of its messages.
pub struct Core<W> {
    pub identity: Identity,
    pub broker: Broker<W>,
}

impl<F> SocketBuilder<F> {
    /// The parts of the socket so set up, given sixteen random bytes for an identity and
    /// sixteen for the broker.
    pub fn build_from<W>(&self, fresh: Identity, salt: &[u8; 16]) -> (r: Core<W>)
        ensures
            r.identity == (match self.identity {
                Some(id) => id,
                None => fresh,
            }),
            r.broker.wf(),
            r.broker@ == (BrokerState {
                mode: self.send_mode,
                guarantee: self.delivery,
                peers: Seq::empty(),
                cursor: 0,
                buffer: Seq::empty(),
                pending: Map::empty(),
                salt: salt@.take(8),
                next_id: 0,
            }),
    {
        Core {
            identity: self.identity_or(fresh),
            broker: Broker::with_salt(self.send_mode, self.delivery, salt),
        }
    }

    /// The parts of the socket so set up. Where no identity is chosen it is a fresh one.
    pub fn build<W>(&self) -> (r: Core<W>)
        ensures
            match self.identity {
                Some(id) => r.identity == id,
                None => r.identity[6] & 0xf0 == 0x40 && r.identity[8] & 0xc0 == 0x80,
            },
            r.broker.wf(),
            r.broker@ == (BrokerState {
                mode: self.send_mode,
                guarantee: self.delivery,
                peers: Seq::empty(),
                cursor: 0,
                buffer: Seq::empty(),
                pending: Map::empty(),
                salt: r.broker@.salt,
                next_id: 0,
            }),
            r.broker@.salt.len() == 8,
            r.broker@.salt[6] & 0xf0 == 0x40,
    {
        let fresh: [u8; 16] = fresh_uuid();
        let salt: [u8; 16] = fresh_uuid();
        self.build_from(fresh, &salt)
    }
}

// Opening and closing --------------------------------------------------------

/// What a close comes to on a socket that is closed already or not: whether shutting down is
/// to be done, and whether the socket is closed behind it.
pub open spec fn close_of(closed: bool) -> (bool, bool) {
    (!closed, true)
}

/// What a connect comes to.
pub open spec fn connect_of<A>(closed: bool, address: Option<A>) -> Result<A, Error> {
    if closed {
        Err(Error::Closed)
    } else {
        match address {
            Some(a) => Ok(a),
            None => Err(Error::BadAddress),
        }
    }
}

/// What handing a message to the broker comes to.
pub open spec fn send_of(taken: bool) -> Result<(), Error> {
    if taken {
        Ok(())
    } else {
        Err(Error::Closed)
    }
}

/// A closed socket stays closed: another close does nothing, connecting is refused, and so is
/// a message, of which the broker takes none behind the close.
pub proof fn lemma_closed_for_good<A, W>(
    closed: bool,
    address: Option<A>,
    s: BrokerState,
    before: Seq<Command<W>>,
    behind: Seq<Command<W>>,
    i: int,
)
    requires
        before.len() < i,
    ensures
        ({
            let (first, now_closed) = close_of(closed);
            let queue = before + seq![Command::Close] + behind;
            &&& now_closed
            &&& close_of(now_closed) == (false, now_closed)
            &&& connect_of(now_closed, address) == Err::<A, Error>(Error::Closed)
            &&& send_of(i < taken_of(s, queue)) == Err::<(), Error>(Error::Closed)
        }),
{
    lemma_nothing_behind_close(s, before, behind);
}

/// Whether a socket is open.
pub struct Lifecycle {
    closed: bool,
}

impl Lifecycle {
    pub closed spec fn is_closed(self) -> bool {
        self.closed
    }

    pub fn new() -> (r: Self)
        ensures
            !r.is_closed(),
    {
        Lifecycle { closed: false }
    }

    /// Closes the socket. Returns whether it was open, so that shutting down is to be done:
    /// the first close does it, and any other does nothing.
    pub fn close(&mut self) -> (r: bool)
        ensures
            (r, final(self).is_closed()) == close_of(old(self).is_closed()),
    {
        let first: bool = !self.closed;
        self.closed = true;
        first
    }

    /// Whether the socket may connect; `address` is the first that its peer's name resolves
    /// to, if any.
    pub fn connect<A>(&self, address: Option<A>) -> (r: Result<A, Error>)
        ensures
            r == connect_of(self.is_closed(), address),
    {
        if self.closed {
            return Err(Error::Closed);
        }
        match address {
            Some(a) => Ok(a),
            None => Err(Error::BadAddress),
        }
    }
}

/// The outcome of handing a message to the broker: it fails if the broker is gone.
pub fn dispatched(taken: bool) -> (r: Result<(), Error>)
    ensures
        r == send_of(taken),
{
    if taken {
        Ok(())
    } else {
        Err(Error::Closed)
    }
}

// Names of TLS servers -------------------------------------------------------

#[verifier::external_type_specification]
#[verifier::external_body]
pub struct ExServerName<'a>(rustls::pki_types::ServerName<'a>);

#[verifier::external_type_specification]
#[verifier::external_body]
pub struct ExInvalidDnsNameError(rustls::pki_types::InvalidDnsNameError);

/// What `ServerName::try_from` makes of a text: the name, if the text is a DNS name or an IP
/// address.
pub uninterp spec fn server_name(text: Seq<char>) -> Option<ServerName<'static>>;

/// `ServerName::try_from` on a `String`: the name that the text is, or an error for a text
/// that is none.
#[verifier::external_body]
fn try_server_name(text: String) -> (r: Result<ServerName<'static>, InvalidDnsNameError>)
    ensures
        match r {
            Ok(name) => server_name(text@) == Some(name),
            Err(_) => server_name(text@) is None,
        },
{
    ServerName::try_from(text)
}

/// What follows from the outcome of reading a server's name.
pub fn name_or_error<N, E>(read: Result<N, E>) -> (r: Result<N, Error>)
    ensures
        match read {
            Ok(name) => r == Ok::<N, Error>(name),
            Err(_) => r == Err::<N, Error>(Error::InvalidServerName),
        },
{
    match read {
        Ok(name) => Ok(name),
        Err(_) => Err(Error::InvalidServerName),
    }
}

/// The name of a TLS server, or the error for a text that is none.
pub fn parse_server_name(text: String) -> (r: Result<ServerName<'static>, Error>)
    ensures
        r == (match server_name(text@) {
            Some(name) => Ok::<ServerName<'static>, Error>(name),
            None => Err::<ServerName<'static>, Error>(Error::InvalidServerName),
        }),
{
    name_or_error(try_server_name(text))
}

/// The first close shuts down, and only the first; an open socket takes every address that
/// resolves and refuses one that does not for that; and a message is refused only where the
/// broker does not take it.
pub proof fn lemma_lifecycle<A>(address: A)
    ensures
        close_of(false) == (true, true),
        close_of(true) == (false, true),
        connect_of(false, Some(address)) == Ok::<A, Error>(address),
        connect_of(false, None::<A>) == Err::<A, Error>(Error::BadAddress),
        connect_of(true, Some(address)) == Err::<A, Error>(Error::Closed),
        connect_of(true, None::<A>) == Err::<A, Error>(Error::Closed),
        send_of(true) == Ok::<(), Error>(()),
        send_of(false) == Err::<(), Error>(Error::Closed),
{
}

} // verus!
