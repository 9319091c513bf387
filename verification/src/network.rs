//! Making connections, and their two ends.
use crate::error::Error;
use crate::state::Shared;
use vstd::prelude::*;

verus! {

/// An address that can be bound to or dialed.
///
/// The bytes of a host stand in one number, the first in the highest place.
#[allow(inconsistent_fields)]
#[derive(Clone, Copy, Debug, PartialEq, Eq, Structural)]
pub enum SocketAddr {
    /// An address of IPv4.
    V4 { ip: u32, port: u16 },
    /// An address of IPv6.
    V6 { ip: u128, port: u16, flowinfo: u32, scope_id: u32 },
}

/// What an operation that may have to wait came to.
#[derive(Debug, PartialEq)]
pub enum Poll<T> {
    /// It is done.
    Ready(T),
    /// It cannot be done yet: it is to be tried again once others have acted.
    Pending,
}

/// Interface that any runtime must implement to create
/// network connections.
pub trait Network<R, L, Si, St>: Clone + Send + Sync + 'static where
    R: Shared,
    L: Listener<R, Si, St>,
    Si: Sink<R>,
    St: Stream<R, Peer = Si>,
 {
    /// Bind to the given socket address.
    fn bind(&self, runtime: &mut R, socket: SocketAddr) -> (result: Result<L, Error>)
        requires
            old(runtime).valid(),
        ensures
            final(runtime).valid(),
            final(runtime).follows(old(runtime)),
            forall|other: Si| #[trigger]
                other.connected(old(runtime)) ==> other.sent(final(runtime)) == other.sent(
                    old(runtime),
                ),
            result matches Ok(listener) ==> {
                &&& listener.bound(final(runtime)) == Some(socket)
                &&& listener.waiting(final(runtime)) == Seq::<(int, int)>::empty()
            },
    ;

    /// Dial the given socket address.
    fn dial(&self, runtime: &mut R, socket: SocketAddr) -> (result: Result<(Si, St), Error>)
        requires
            old(runtime).valid(),
        ensures
            final(runtime).valid(),
            final(runtime).follows(old(runtime)),
            forall|other: Si| #[trigger]
                other.connected(old(runtime)) ==> other.sent(final(runtime)) == other.sent(
                    old(runtime),
                ),
            result matches Ok((sink, stream)) ==> {
                &&& forall|listener: L| #[trigger]
                    listener.bound(old(runtime)) == Some(socket) ==> listener.waiting(
                        final(runtime),
                    ) == listener.waiting(old(runtime)).push((sink.end(), stream.peer()))
                &&& sink.connected(final(runtime))
                &&& stream.connected(final(runtime))
                &&& sink.sent(final(runtime)) == Seq::<u8>::empty()
                &&& stream.received(final(runtime)) == Seq::<u8>::empty()
            },
    ;
}

/// Interface that any runtime must implement to handle
/// incoming network connections.
pub trait Listener<R, Si, St>: Sync + Send + Sized + 'static where
    R: Shared,
    Si: Sink<R>,
    St: Stream<R, Peer = Si>,
 {
    /// The address that the listener is bound to in this runtime.
    spec fn bound(&self, runtime: &R) -> Option<SocketAddr>;

    /// A listener stays bound.
    proof fn law_stays_bound(&self, earlier: &R, later: &R)
        requires
            earlier.valid(),
            later.valid(),
            later.follows(earlier),
            self.bound(earlier) is Some,
        ensures
            self.bound(later) == self.bound(earlier),
    ;

    /// The connections that were made to the listener and not accepted, the first one first: for
    /// each, the number of the sink that its dialer has, and of the sink that feeds the stream that
    /// its dialer has.
    spec fn waiting(&self, runtime: &R) -> Seq<(int, int)>;

    /// Accept an incoming connection.
    ///
    /// While there is none, the call is pending.
    fn accept(&mut self, runtime: &mut R) -> (result: Poll<Result<(SocketAddr, Si, St), Error>>)
        requires
            old(runtime).valid(),
            old(self).bound(old(runtime)) is Some,
        ensures
            final(runtime).valid(),
            final(runtime).follows(old(runtime)),
            forall|other: Si| #[trigger]
                other.connected(old(runtime)) ==> other.sent(final(runtime)) == other.sent(
                    old(runtime),
                ),
            final(self).bound(final(runtime)) == old(self).bound(old(runtime)),
            result matches Poll::Ready(Ok((address, sink, stream))) ==> {
                &&& old(self).waiting(old(runtime)).len() > 0
                &&& (stream.peer(), sink.end()) == old(self).waiting(old(runtime))[0]
                &&& final(self).waiting(final(runtime)) == old(self).waiting(
                    old(runtime),
                ).drop_first()
                &&& sink.connected(final(runtime))
                &&& stream.connected(final(runtime))
                &&& sink.sent(final(runtime)) == Seq::<u8>::empty()
                &&& stream.received(final(runtime)) == Seq::<u8>::empty()
            },
            result is Pending ==> {
                &&& old(self).waiting(old(runtime)).len() == 0
                &&& final(self).waiting(final(runtime)) == old(self).waiting(old(runtime))
            },
    ;
}

/// Interface that any runtime must implement to send
/// messages over a network connection.
pub trait Sink<R: Shared>: Sync + Send + Sized + 'static {
    /// Whether this is an end of a connection of this runtime.
    spec fn connected(&self, runtime: &R) -> bool;

    /// An end of a connection stays one.
    proof fn law_stays_connected(&self, earlier: &R, later: &R)
        requires
            earlier.valid(),
            later.valid(),
            later.follows(earlier),
            self.connected(earlier),
        ensures
            self.connected(later),
    ;

    /// The number of the sink, by which a stream names the sink that feeds it.
    spec fn end(&self) -> int;

    /// The bytes sent so far.
    spec fn sent(&self, runtime: &R) -> Seq<u8>;

    /// Send a message to the sink.
    fn send(&mut self, runtime: &mut R, msg: &[u8]) -> (result: Result<(), Error>)
        requires
            old(runtime).valid(),
            old(self).connected(old(runtime)),
        ensures
            final(runtime).valid(),
            final(runtime).follows(old(runtime)),
            final(self).connected(final(runtime)),
            final(self).end() == old(self).end(),
            forall|other: Self| #[trigger]
                other.connected(old(runtime)) && other.end() != old(self).end() ==> other.sent(
                    final(runtime),
                ) == other.sent(old(runtime)),
            result is Ok ==> final(self).sent(final(runtime)) == old(self).sent(old(runtime))
                + msg@,
    ;
}

/// Interface that any runtime must implement to receive
/// messages over a network connection.
pub trait Stream<R: Shared>: Sync + Send + Sized + 'static {
    /// What is sent to, at the other end of the connection.
    type Peer: Sink<R>;

    /// Whether this is an end of a connection of this runtime.
    spec fn connected(&self, runtime: &R) -> bool;

    /// An end of a connection stays one.
    proof fn law_stays_connected(&self, earlier: &R, later: &R)
        requires
            earlier.valid(),
            later.valid(),
            later.follows(earlier),
            self.connected(earlier),
        ensures
            self.connected(later),
    ;

    /// The bytes received so far.
    spec fn received(&self, runtime: &R) -> Seq<u8>;

    /// The bytes that were sent to the stream so far.
    spec fn incoming(&self, runtime: &R) -> Seq<u8>;

    /// The number of the sink that feeds the stream.
    spec fn peer(&self) -> int;

    /// What comes in at a stream is what was sent to the sink at the other end.
    proof fn law_incoming_is_what_was_sent(&self, sink: &Self::Peer, runtime: &R)
        requires
            runtime.valid(),
            self.peer() == sink.end(),
        ensures
            self.incoming(runtime) == sink.sent(runtime),
    ;

    /// Receive a message from the stream, storing it in the given buffer.
    /// Reads exactly the number of bytes that fit in the buffer.
    ///
    /// While fewer bytes have come in, the call is pending.
    fn recv(&mut self, runtime: &mut R, buf: &mut [u8]) -> (result: Poll<Result<(), Error>>)
        requires
            old(runtime).valid(),
            old(self).connected(old(runtime)),
        ensures
            final(runtime).valid(),
            final(runtime).follows(old(runtime)),
            forall|other: Self::Peer| #[trigger]
                other.connected(old(runtime)) ==> other.sent(final(runtime)) == other.sent(
                    old(runtime),
                ),
            final(self).connected(final(runtime)),
            final(buf)@.len() == old(buf)@.len(),
            old(self).incoming(old(runtime)).is_prefix_of(final(self).incoming(final(runtime))),
            final(self).received(final(runtime)).is_prefix_of(final(self).incoming(final(runtime))),
            final(self).peer() == old(self).peer(),
            result matches Poll::Ready(Ok(_)) ==> final(self).received(final(runtime)) == old(
                self,
            ).received(old(runtime)) + final(buf)@,
            result is Pending ==> final(self).received(final(runtime)) == old(self).received(
                old(runtime),
            ),
    ;
}

} // verus!
