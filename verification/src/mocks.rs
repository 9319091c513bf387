//! A connection within one process.
use crate::error::Error;
use crate::network::Poll;
use crate::state::Shared;
use vstd::prelude::*;

verus! {

/// What a connection carries, as plain values.
pub struct Transfer {
    /// The bytes sent so far.
    pub sent: Seq<u8>,
    /// The bytes received so far.
    pub received: Seq<u8>,
    /// Whether no more bytes will be sent.
    pub closed: bool,
}

impl Transfer {
    /// What was received is what was sent first.
    pub open spec fn valid(self) -> bool {
        self.received.is_prefix_of(self.sent)
    }

    /// The bytes that were sent and have not been received.
    pub open spec fn pending(self) -> Seq<u8> {
        self.sent.skip(self.received.len() as int)
    }

    pub open spec fn send(self, msg: Seq<u8>) -> Transfer {
        Transfer { sent: self.sent + msg, ..self }
    }

    /// `len` bytes are received, if as many are pending.
    pub open spec fn recv(self, len: nat) -> Transfer {
        if len <= self.pending().len() {
            Transfer { received: self.received + self.pending().take(len as int), ..self }
        } else {
            self
        }
    }

    /// What a receiver of `len` bytes is told: to wait while fewer are pending, unless no more will
    /// be sent.
    pub open spec fn answer(self, len: nat) -> Poll<Result<(), Error>> {
        if len <= self.pending().len() {
            Poll::Ready(Ok(()))
        } else if self.closed {
            Poll::Ready(Err(Error::RecvFailed))
        } else {
            Poll::Pending
        }
    }

    /// What a buffer holds once it was offered to be filled.
    pub open spec fn filled(self, buf: Seq<u8>) -> Seq<u8> {
        if buf.len() <= self.pending().len() {
            self.pending().take(buf.len() as int)
        } else {
            buf
        }
    }

    pub open spec fn close(self) -> Transfer {
        Transfer { closed: true, ..self }
    }
}

/// A connection: bytes go in at its [`Sink`] and come out, in the same order, at its [`Stream`].
pub struct Channel {
    bytes: Vec<u8>,
    read: usize,
    closed: bool,
}

/// The end of a [`Channel`] that bytes go in at.
pub struct Sink {}

/// The end of a [`Channel`] that bytes come out at.
pub struct Stream {}

impl View for Channel {
    type V = Transfer;

    closed spec fn view(&self) -> Transfer {
        Transfer {
            sent: self.bytes@,
            received: self.bytes@.take(self.read as int),
            closed: self.closed,
        }
    }
}

impl Shared for Channel {
    closed spec fn valid(&self) -> bool {
        self.read <= self.bytes@.len()
    }

    open spec fn follows(&self, earlier: &Channel) -> bool {
        true
    }
}

impl Channel {
    /// A connection over which nothing was sent, and its two ends.
    pub fn init() -> (ends: (Channel, Sink, Stream))
        ensures
            ends.0.valid(),
            ends.0@ == (Transfer { sent: Seq::empty(), received: Seq::empty(), closed: false }),
    {
        let channel = Channel { bytes: Vec::new(), read: 0, closed: false };
        assert(channel@.received =~= Seq::empty());
        (channel, Sink {  }, Stream {  })
    }

    /// How many bytes were sent and have not been received.
    pub fn available(&self) -> (available: usize)
        requires
            self.valid(),
        ensures
            available == self@.pending().len(),
    {
        self.bytes.len() - self.read
    }

    /// Takes in `msg`.
    pub fn push(&mut self, msg: &[u8])
        requires
            old(self).valid(),
        ensures
            final(self).valid(),
            final(self)@ == old(self)@.send(msg@),
    {
        let mut i: usize = 0;
        while i < msg.len()
            invariant
                i <= msg@.len(),
                self.read == old(self).read,
                self.closed == old(self).closed,
                self.bytes@ == old(self).bytes@ + msg@.take(i as int),
            decreases msg@.len() - i,
        {
            self.bytes.push(msg[i]);
            assert(msg@.take(i + 1) =~= msg@.take(i as int).push(msg@[i as int]));
            i += 1;
        }
        assert(msg@.take(i as int) =~= msg@);
        assert(self@.received =~= old(self)@.received);
    }

    /// Fills `buf` with the bytes that were sent next, if there are as many.
    pub fn pull(&mut self, buf: &mut [u8]) -> (result: Poll<Result<(), Error>>)
        requires
            old(self).valid(),
        ensures
            final(self).valid(),
            result == old(self)@.answer(old(buf)@.len()),
            final(self)@ == old(self)@.recv(old(buf)@.len()),
            final(buf)@ == old(self)@.filled(old(buf)@),
    {
        let len: usize = buf.len();
        if len > self.available() {
            return if self.closed {
                Poll::Ready(Err(Error::RecvFailed))
            } else {
                Poll::Pending
            };
        }
        let read: usize = self.read;
        let mut i: usize = 0;
        while i < len
            invariant
                i <= len == buf@.len(),
                len == old(buf)@.len(),
                *self == *old(self),
                read == self.read,
                read + len <= self.bytes@.len() == self.bytes.len(),
                forall|j: int| 0 <= j < i ==> buf@[j] == self.bytes@[read + j],
            decreases len - i,
        {
            buf[i] = self.bytes[read + i];
            i += 1;
        }
        self.read = read + len;
        proof {
            let pending = old(self)@.pending();
            assert(buf@ =~= pending.take(len as int));
            assert(self@.received =~= old(self)@.received + pending.take(len as int));
        }
        Poll::Ready(Ok(()))
    }

    /// Lets the stream know that no more bytes will be sent.
    pub fn close(&mut self)
        requires
            old(self).valid(),
        ensures
            final(self).valid(),
            final(self)@ == old(self)@.close(),
    {
        self.closed = true;
    }
}

impl crate::network::Sink<Channel> for Sink {
    open spec fn connected(&self, runtime: &Channel) -> bool {
        true
    }

    proof fn law_stays_connected(&self, earlier: &Channel, later: &Channel) {
    }

    open spec fn end(&self) -> int {
        0
    }

    open spec fn sent(&self, runtime: &Channel) -> Seq<u8> {
        runtime@.sent
    }

    fn send(&mut self, runtime: &mut Channel, msg: &[u8]) -> (result: Result<(), Error>)
        ensures
            result is Ok,
            final(runtime)@ == old(runtime)@.send(msg@),
    {
        runtime.push(msg);
        Ok(())
    }
}

impl Sink {
    /// Gives the sink up: no more bytes will be sent.
    pub fn close(self, channel: &mut Channel)
        requires
            old(channel).valid(),
        ensures
            final(channel).valid(),
            final(channel)@ == old(channel)@.close(),
    {
        channel.close();
    }
}

impl crate::network::Stream<Channel> for Stream {
    type Peer = Sink;

    open spec fn connected(&self, runtime: &Channel) -> bool {
        true
    }

    proof fn law_stays_connected(&self, earlier: &Channel, later: &Channel) {
    }

    open spec fn received(&self, runtime: &Channel) -> Seq<u8> {
        runtime@.received
    }

    open spec fn incoming(&self, runtime: &Channel) -> Seq<u8> {
        runtime@.sent
    }

    open spec fn peer(&self) -> int {
        0
    }

    proof fn law_incoming_is_what_was_sent(&self, sink: &Sink, runtime: &Channel) {
    }

    fn recv(&mut self, runtime: &mut Channel, buf: &mut [u8]) -> (result: Poll<Result<(), Error>>)
        ensures
            result == old(runtime)@.answer(old(buf)@.len()),
            final(runtime)@ == old(runtime)@.recv(old(buf)@.len()),
            final(buf)@ == old(runtime)@.filled(old(buf)@),
    {
        let result = runtime.pull(buf);
        proof {
            law_channel_keeps_order(runtime);
            assert(runtime@.sent =~= runtime@.sent.subrange(0, runtime@.sent.len() as int));
        }
        result
    }
}

/// Whatever is done to a channel, what was received over it is what was sent first.
pub proof fn law_channel_keeps_order(channel: &Channel)
    requires
        channel.valid(),
    ensures
        channel@.valid(),
{
    assert(channel@.received =~= channel@.sent.subrange(0, channel@.received.len() as int));
}

/// At every moment, what was received is what was sent first, in the same order.
pub proof fn law_received_is_what_was_sent(transfer: Transfer, msg: Seq<u8>, len: nat)
    requires
        transfer.valid(),
    ensures
        transfer.send(msg).valid(),
        transfer.recv(len).valid(),
        transfer.close().valid(),
        transfer.received + transfer.pending() == transfer.sent,
{
    assert(transfer.received + transfer.pending() =~= transfer.sent);
    assert(transfer.received =~= (transfer.sent + msg).subrange(
        0,
        transfer.received.len() as int,
    ));
    if len <= transfer.pending().len() {
        let received = transfer.recv(len).received;
        assert(received =~= transfer.sent.subrange(0, received.len() as int));
    }
}

/// A message sent when nothing is pending is the message received.
pub proof fn law_message_arrives(transfer: Transfer, msg: Seq<u8>)
    requires
        transfer.valid(),
        transfer.pending().len() == 0,
    ensures
        transfer.send(msg).pending().take(msg.len() as int) == msg,
        transfer.send(msg).recv(msg.len()).pending().len() == 0,
{
    assert(transfer.send(msg).pending() =~= msg);
    assert(msg.take(msg.len() as int) =~= msg);
}

/// A receiver waits as long as more may be sent: it is refused only when the bytes it asks for can
/// never come, and is served whatever was sent before the sink was given up.
pub proof fn law_receiver_waits(transfer: Transfer, msg: Seq<u8>)
    requires
        transfer.valid(),
        !transfer.closed,
        transfer.pending().len() < msg.len(),
    ensures
        transfer.answer(msg.len()) == Poll::<Result<(), Error>>::Pending,
        transfer.recv(msg.len()) == transfer,
        transfer.send(msg).answer(msg.len()) == Poll::Ready(Ok::<(), Error>(())),
        transfer.send(msg).close().answer(msg.len()) == Poll::Ready(Ok::<(), Error>(())),
        transfer.close().answer(msg.len()) == Poll::Ready(Err::<(), Error>(Error::RecvFailed)),
{
}

/// The stream has no message boundaries: sending two messages is sending them joined, and
/// receiving twice is receiving once with a buffer of both lengths.
pub proof fn law_no_message_boundaries(
    transfer: Transfer,
    first: Seq<u8>,
    second: Seq<u8>,
    m: nat,
    n: nat,
)
    requires
        transfer.valid(),
        m + n <= transfer.pending().len(),
    ensures
        transfer.send(first).send(second) == transfer.send(first + second),
        transfer.recv(m).recv(n) == transfer.recv(m + n),
        transfer.pending().take((m + n) as int) == transfer.pending().take(m as int)
            + transfer.recv(m).pending().take(n as int),
{
    assert(transfer.sent + first + second =~= transfer.sent + (first + second));
    let pending = transfer.pending();
    assert(transfer.recv(m).pending() =~= pending.skip(m as int));
    assert(pending.take((m + n) as int) =~= pending.take(m as int) + pending.skip(m as int).take(
        n as int,
    ));
    assert(transfer.recv(m).recv(n).received =~= transfer.recv(m + n).received);
}

/// Sending adds the message to the end of what was sent, and changes nothing else.
pub proof fn law_sending_only_appends(transfer: Transfer, msg: Seq<u8>)
    ensures
        transfer.send(msg).sent == transfer.sent + msg,
        transfer.send(msg).received == transfer.received,
        transfer.send(msg).closed == transfer.closed,
        transfer.close().sent == transfer.sent,
        transfer.close().received == transfer.received,
        transfer.close().closed,
{
}

/// A receiver is served whenever as many bytes were sent and not received as it asks for, however
/// many more there are and whether or not more may be sent: it gets the next bytes that were sent,
/// and they count as received.
pub proof fn law_receiver_gets_the_next_bytes(transfer: Transfer, buf: Seq<u8>)
    requires
        transfer.received.len() + buf.len() <= transfer.sent.len(),
        transfer.received == transfer.sent.take(transfer.received.len() as int),
    ensures
        transfer.answer(buf.len()) == Poll::Ready(Ok::<(), Error>(())),
        transfer.filled(buf).len() == buf.len(),
        forall|i: int|
            0 <= i < buf.len() ==> #[trigger] transfer.filled(buf)[i] == transfer.sent[
                transfer.received.len() + i],
        transfer.recv(buf.len()).received == transfer.sent.take(
            (transfer.received.len() + buf.len()) as int,
        ),
        transfer.recv(buf.len()).sent == transfer.sent,
        transfer.recv(buf.len()).closed == transfer.closed,
{
    assert(transfer.recv(buf.len()).received =~= transfer.sent.take(
        (transfer.received.len() + buf.len()) as int,
    ));
}

/// A receiver that asks for more bytes than were sent and not received gets none and takes none
/// away; it is refused if no more will be sent, and waits otherwise.
pub proof fn law_receiver_gets_all_or_nothing(transfer: Transfer, buf: Seq<u8>)
    requires
        transfer.received.len() <= transfer.sent.len() < transfer.received.len() + buf.len(),
    ensures
        transfer.closed ==> transfer.answer(buf.len()) == Poll::Ready(
            Err::<(), Error>(Error::RecvFailed),
        ),
        !transfer.closed ==> transfer.answer(buf.len()) == Poll::<Result<(), Error>>::Pending,
        transfer.filled(buf) == buf,
        transfer.recv(buf.len()) == transfer,
{
}

/// What is pending is what was sent after the bytes that were received.
pub proof fn law_pending_is_the_rest(transfer: Transfer)
    requires
        transfer.received.len() <= transfer.sent.len(),
    ensures
        transfer.pending().len() == transfer.sent.len() - transfer.received.len(),
        forall|i: int|
            0 <= i < transfer.pending().len() ==> #[trigger] transfer.pending()[i]
                == transfer.sent[transfer.received.len() + i],
        transfer.valid() <==> transfer.received == transfer.sent.take(
            transfer.received.len() as int,
        ),
{
    assert(transfer.sent.take(transfer.received.len() as int) =~= transfer.sent.subrange(
        0,
        transfer.received.len() as int,
    ));
}

} // verus!
