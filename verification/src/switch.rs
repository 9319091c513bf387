//! Connections between the tasks of one process.
use crate::error::Error;
use crate::mocks::{Channel, Transfer};
use crate::network::{Poll, SocketAddr};
use crate::state::Shared;
use std::collections::VecDeque;
use vstd::prelude::*;

verus! {

/// The address of the host that every task is on.
pub const LOCALHOST: u32 = 0x7f00_0001;

/// The first of the ports that connections are made from.
pub const FIRST_EPHEMERAL_PORT: u16 = 32768;

/// How many ports there are to make connections from.
pub const EPHEMERAL_PORTS: u16 = 28232;

/// A listener, as plain values.
pub struct ListenerState {
    /// The address that it is bound to.
    pub address: SocketAddr,
    /// The connections that it has not accepted, the first one dialed first.
    pub backlog: Seq<usize>,
}

/// A connection, as plain values.
pub struct LinkState {
    /// The address that it was made from.
    pub dialer: SocketAddr,
    /// The number of the listener that it was made to.
    pub listener: usize,
    /// Whether that listener has accepted it.
    pub accepted: bool,
    /// What the dialer sends.
    pub outbound: Transfer,
    /// What the dialer receives.
    pub inbound: Transfer,
}

/// All listeners and connections, as plain values.
#[verifier::ext_equal]
pub struct Topology {
    /// The listeners, in the order in which they were bound.
    pub listeners: Seq<ListenerState>,
    /// The connections, in the order in which they were made.
    pub links: Seq<LinkState>,
}

/// The address that connection `link` is made from.
pub open spec fn dialer_address(link: int) -> SocketAddr {
    SocketAddr::V4 { ip: LOCALHOST, port: (FIRST_EPHEMERAL_PORT + link) as u16 }
}

/// Whether `address` is set aside to make connections from, so that it cannot be bound to.
pub open spec fn ephemeral(address: SocketAddr) -> bool {
    match address {
        SocketAddr::V4 { ip, port } => ip == LOCALHOST && FIRST_EPHEMERAL_PORT <= port
            < FIRST_EPHEMERAL_PORT + EPHEMERAL_PORTS,
        SocketAddr::V6 { .. } => false,
    }
}

/// A connection over which nothing was sent.
pub open spec fn quiet() -> Transfer {
    Transfer { sent: Seq::empty(), received: Seq::empty(), closed: false }
}

impl LinkState {
    /// What goes from one end to the other.
    pub open spec fn direction(self, from_dialer: bool) -> Transfer {
        if from_dialer {
            self.outbound
        } else {
            self.inbound
        }
    }

    /// What goes from one end to the other is replaced.
    pub open spec fn redirect(self, from_dialer: bool, transfer: Transfer) -> LinkState {
        if from_dialer {
            LinkState { outbound: transfer, ..self }
        } else {
            LinkState { inbound: transfer, ..self }
        }
    }
}

impl Topology {
    /// Neither listeners nor connections.
    pub open spec fn empty() -> Topology {
        Topology { listeners: Seq::empty(), links: Seq::empty() }
    }

    pub open spec fn valid(self) -> bool {
        &&& forall|i: int, j: int|
            0 <= i < j < self.listeners.len() ==> (#[trigger] self.listeners[i]).address != (
            #[trigger] self.listeners[j]).address
        &&& self.listeners.len() <= usize::MAX
        &&& self.links.len() <= EPHEMERAL_PORTS
        &&& forall|i: int| 0 <= i < self.listeners.len() ==> #[trigger] self.valid_listener(i)
        &&& forall|k: int| 0 <= k < self.links.len() ==> #[trigger] self.valid_link(k)
    }

    /// A listener can be bound to, and waits for connections that were made to it and not
    /// accepted.
    pub open spec fn valid_listener(self, listener: int) -> bool {
        let ListenerState { address, backlog } = self.listeners[listener];
        &&& !ephemeral(address)
        &&& forall|a: int|
            0 <= a < backlog.len() ==> {
                &&& (#[trigger] backlog[a]) < self.links.len()
                &&& self.links[backlog[a] as int].listener == listener
                &&& !self.links[backlog[a] as int].accepted
            }
        &&& forall|a: int, b: int| 0 <= a < b < backlog.len() ==> backlog[a] < backlog[b]
    }

    /// A connection was made to a listener, which waits for it until it is accepted; until then
    /// nothing is sent or received at that end.
    pub open spec fn valid_link(self, link: int) -> bool {
        let state = self.links[link];
        &&& state.dialer == dialer_address(link)
        &&& state.listener < self.listeners.len()
        &&& state.outbound.valid()
        &&& state.inbound.valid()
        &&& !state.accepted ==> {
            &&& self.listeners[state.listener as int].backlog.contains(link as usize)
            &&& state.inbound.sent == Seq::<u8>::empty()
            &&& state.outbound.received == Seq::<u8>::empty()
        }
    }

    /// Whether each listener of `earlier` is still bound, and each end of a connection still there.
    pub open spec fn follows(self, earlier: Topology) -> bool {
        &&& earlier.listeners.len() <= self.listeners.len()
        &&& earlier.links.len() <= self.links.len()
        &&& forall|i: int|
            0 <= i < earlier.listeners.len() ==> (#[trigger] self.listeners[i]).address
                == earlier.listeners[i].address
        &&& forall|k: int|
            0 <= k < earlier.links.len() && earlier.links[k].accepted ==> (
            #[trigger] self.links[k]).accepted
    }

    /// Whether a listener is bound to `address`.
    pub open spec fn bound(self, address: SocketAddr) -> bool {
        exists|i: int| 0 <= i < self.listeners.len() && (#[trigger] self.listeners[i]).address == address
    }

    /// The listener that is bound to `address`.
    pub open spec fn listener_at(self, address: SocketAddr) -> int {
        choose|i: int| 0 <= i < self.listeners.len() && (#[trigger] self.listeners[i]).address == address
    }

    /// Whether `address` can be bound to.
    pub open spec fn may_bind(self, address: SocketAddr) -> bool {
        !self.bound(address) && !ephemeral(address)
    }

    /// Whether `address` can be dialed.
    pub open spec fn may_dial(self, address: SocketAddr) -> bool {
        self.bound(address) && self.links.len() < EPHEMERAL_PORTS
    }

    /// A listener is bound to `address`.
    pub open spec fn bind(self, address: SocketAddr) -> Topology {
        Topology {
            listeners: self.listeners.push(ListenerState { address, backlog: Seq::empty() }),
            ..self
        }
    }

    /// A connection is made, which the listener bound to `address` will accept after those that
    /// were made before.
    pub open spec fn dial(self, address: SocketAddr) -> Topology {
        let at = self.listener_at(address);
        let listener = self.listeners[at];
        Topology {
            listeners: self.listeners.update(
                at,
                ListenerState {
                    backlog: listener.backlog.push(self.links.len() as usize),
                    ..listener
                },
            ),
            links: self.links.push(
                LinkState {
                    dialer: dialer_address(self.links.len() as int),
                    listener: at as usize,
                    accepted: false,
                    outbound: quiet(),
                    inbound: quiet(),
                },
            ),
        }
    }

    /// A listener accepts the first of its connections.
    pub open spec fn accept(self, listener: usize) -> Topology {
        let state = self.listeners[listener as int];
        let link = state.backlog[0] as int;
        Topology {
            listeners: self.listeners.update(
                listener as int,
                ListenerState { backlog: state.backlog.drop_first(), ..state },
            ),
            links: self.links.update(link, LinkState { accepted: true, ..self.links[link] }),
        }
    }

    /// Whether one end of a connection is there: the end that was dialed only once the
    /// connection has been accepted.
    pub open spec fn connected(self, link: usize, dialer: bool) -> bool {
        link < self.links.len() && (dialer || self.links[link as int].accepted)
    }

    /// What goes from one end of a connection to the other.
    pub open spec fn transfer(self, link: usize, from_dialer: bool) -> Transfer {
        self.links[link as int].direction(from_dialer)
    }

    /// What goes from one end of a connection to the other is replaced.
    pub open spec fn carry(self, link: usize, from_dialer: bool, transfer: Transfer) -> Topology {
        Topology {
            links: self.links.update(
                link as int,
                self.links[link as int].redirect(from_dialer, transfer),
            ),
            ..self
        }
    }

    /// One end of a connection sends `msg` to the other.
    pub open spec fn send(self, link: usize, from_dialer: bool, msg: Seq<u8>) -> Topology {
        self.carry(link, from_dialer, self.transfer(link, from_dialer).send(msg))
    }

    /// One end of a connection is given up for sending.
    pub open spec fn close(self, link: usize, from_dialer: bool) -> Topology {
        self.carry(link, from_dialer, self.transfer(link, from_dialer).close())
    }

    /// One end of a connection receives `len` bytes that the other sent, if it has sent as many.
    pub open spec fn recv(self, link: usize, from_dialer: bool, len: nat) -> Topology {
        self.carry(link, from_dialer, self.transfer(link, from_dialer).recv(len))
    }
}

proof fn lemma_bind_valid(t: Topology, address: SocketAddr)
    requires
        t.valid(),
        t.listeners.len() < usize::MAX,
        t.may_bind(address),
    ensures
        t.bind(address).valid(),
{
    let after = t.bind(address);
    assert forall|i: int| 0 <= i < after.listeners.len() implies #[trigger] after.valid_listener(
        i,
    ) by {
        if i < t.listeners.len() {
            assert(t.valid_listener(i));
        }
    }
    assert forall|k: int| 0 <= k < after.links.len() implies #[trigger] after.valid_link(k) by {
        assert(t.valid_link(k));
    }
}

proof fn lemma_dial_valid(t: Topology, address: SocketAddr)
    requires
        t.valid(),
        t.may_dial(address),
    ensures
        t.dial(address).valid(),
{
    let after = t.dial(address);
    let at = t.listener_at(address);
    let new = t.links.len() as usize;
    assert(t.listeners[at].address == address);
    assert(t.valid_listener(at));
    assert forall|i: int| 0 <= i < after.listeners.len() implies #[trigger] after.valid_listener(
        i,
    ) by {
        assert(t.valid_listener(i));
    }
    assert forall|k: int| 0 <= k < after.links.len() implies #[trigger] after.valid_link(k) by {
        if k < t.links.len() {
            assert(t.valid_link(k));
            let before = t.listeners[t.links[k].listener as int].backlog;
            if !t.links[k].accepted {
                let a = choose|a: int| 0 <= a < before.len() && before[a] == k as usize;
                assert(after.listeners[t.links[k].listener as int].backlog[a] == k as usize);
            }
        } else {
            assert(after.listeners[at].backlog.last() == new);
        }
    }
}

proof fn lemma_accept_valid(t: Topology, listener: usize)
    requires
        t.valid(),
        listener < t.listeners.len(),
        t.listeners[listener as int].backlog.len() > 0,
    ensures
        t.accept(listener).valid(),
{
    let after = t.accept(listener);
    let backlog = t.listeners[listener as int].backlog;
    let link = backlog[0];
    assert(t.valid_listener(listener as int));
    assert forall|i: int| 0 <= i < after.listeners.len() implies #[trigger] after.valid_listener(
        i,
    ) by {
        assert(t.valid_listener(i));
        if i == listener {
            assert forall|a: int| 0 <= a < backlog.len() - 1 implies #[trigger] backlog.drop_first()[a]
                == backlog[a + 1] && backlog[a + 1] != link by {}
        }
    }
    assert forall|k: int| 0 <= k < after.links.len() implies #[trigger] after.valid_link(k) by {
        assert(t.valid_link(k));
        if k != link && !t.links[k].accepted {
            let at = t.links[k].listener as int;
            let before = t.listeners[at].backlog;
            let a = choose|a: int| 0 <= a < before.len() && before[a] == k as usize;
            if at == listener {
                assert(after.listeners[at].backlog[a - 1] == k as usize);
            } else {
                assert(after.listeners[at].backlog[a] == k as usize);
            }
        }
    }
}

proof fn lemma_carry_valid(t: Topology, link: usize, from_dialer: bool, transfer: Transfer)
    requires
        t.valid(),
        link < t.links.len(),
        transfer.valid(),
        !t.links[link as int].accepted ==> if from_dialer {
            transfer.received == t.transfer(link, true).received
        } else {
            transfer.sent == t.transfer(link, false).sent
        },
    ensures
        t.carry(link, from_dialer, transfer).valid(),
{
    let after = t.carry(link, from_dialer, transfer);
    assert forall|i: int| 0 <= i < after.listeners.len() implies #[trigger] after.valid_listener(
        i,
    ) by {
        assert(t.valid_listener(i));
    }
    assert forall|k: int| 0 <= k < after.links.len() implies #[trigger] after.valid_link(k) by {
        assert(t.valid_link(k));
    }
}

struct Port {
    address: SocketAddr,
    backlog: VecDeque<usize>,
}

struct Link {
    dialer: SocketAddr,
    listener: usize,
    accepted: bool,
    outbound: Channel,
    inbound: Channel,
}

impl Port {
    spec fn state(self) -> ListenerState {
        ListenerState { address: self.address, backlog: self.backlog@ }
    }
}

impl Link {
    spec fn state(self) -> LinkState {
        LinkState {
            dialer: self.dialer,
            listener: self.listener,
            accepted: self.accepted,
            outbound: self.outbound@,
            inbound: self.inbound@,
        }
    }
}

/// All listeners and connections.
pub struct Switch {
    ports: Vec<Port>,
    links: Vec<Link>,
}

impl View for Switch {
    type V = Topology;

    closed spec fn view(&self) -> Topology {
        Topology {
            listeners: self.ports@.map_values(|port: Port| port.state()),
            links: self.links@.map_values(|link: Link| link.state()),
        }
    }
}

impl Switch {
    pub closed spec fn valid(self) -> bool {
        &&& self@.valid()
        &&& forall|k: int|
            0 <= k < self.links@.len() ==> (#[trigger] self.links@[k]).outbound.valid()
                && self.links@[k].inbound.valid()
    }

    /// The listeners and connections are consistent.
    pub proof fn lemma_valid(&self)
        requires
            self.valid(),
        ensures
            self@.valid(),
    {
    }

    /// Without listeners and connections.
    pub fn new() -> (switch: Self)
        ensures
            switch.valid(),
            switch@ == Topology::empty(),
    {
        let switch = Switch { ports: Vec::new(), links: Vec::new() };
        assert(switch@ =~= Topology::empty());
        switch
    }

    /// The number of the listener that is bound to `address`, if one is.
    fn find(&self, address: SocketAddr) -> (found: Option<usize>)
        requires
            self.valid(),
        ensures
            match found {
                Some(at) => self@.bound(address) && at == self@.listener_at(address) && at
                    < self.ports@.len(),
                None => !self@.bound(address),
            },
    {
        let mut at: usize = 0;
        while at < self.ports.len()
            invariant
                self.valid(),
                at <= self.ports@.len(),
                forall|i: int| 0 <= i < at ==> (#[trigger] self@.listeners[i]).address != address,
            decreases self.ports@.len() - at,
        {
            assert(self@.listeners[at as int] == self.ports@[at as int].state());
            if self.ports[at].address == address {
                proof {
                    let found = self@.listener_at(address);
                    assert(self@.listeners[found].address == address);
                    assert(found == at);
                }
                return Some(at);
            }
            at += 1;
        }
        None
    }

    /// Binds a listener to `address`, and returns its number.
    pub fn bind(&mut self, address: SocketAddr) -> (result: Result<usize, Error>)
        requires
            old(self).valid(),
        ensures
            final(self).valid(),
            match result {
                Ok(listener) => old(self)@.may_bind(address) && listener
                    == old(self)@.listeners.len() && final(self)@ == old(self)@.bind(address),
                Err(error) => !old(self)@.may_bind(address) && error == Error::BindFailed
                    && final(self)@ == old(self)@,
            },
    {
        let taken_for_dialing = match address {
            SocketAddr::V4 { ip, port } => ip == LOCALHOST && port >= FIRST_EPHEMERAL_PORT && port
                - FIRST_EPHEMERAL_PORT < EPHEMERAL_PORTS,
            SocketAddr::V6 { .. } => false,
        };
        if taken_for_dialing {
            return Err(Error::BindFailed);
        }
        if self.find(address).is_some() {
            return Err(Error::BindFailed);
        }
        let listener = self.ports.len();
        self.ports.push(Port { address, backlog: VecDeque::new() });
        proof {
            assert(self.ports.len() == listener + 1);
            assert(self@ =~= old(self)@.bind(address));
            lemma_bind_valid(old(self)@, address);
        }
        Ok(listener)
    }

    /// Makes a connection to the listener bound to `address`, and returns its number.
    pub fn dial(&mut self, address: SocketAddr) -> (result: Result<usize, Error>)
        requires
            old(self).valid(),
        ensures
            final(self).valid(),
            match result {
                Ok(link) => old(self)@.may_dial(address) && link == old(self)@.links.len()
                    && final(self)@ == old(self)@.dial(address),
                Err(error) => !old(self)@.may_dial(address) && error == Error::ConnectionFailed
                    && final(self)@ == old(self)@,
            },
    {
        let at = match self.find(address) {
            Some(at) => at,
            None => return Err(Error::ConnectionFailed),
        };
        let link = self.links.len();
        if link >= EPHEMERAL_PORTS as usize {
            return Err(Error::ConnectionFailed);
        }
        let dialer = SocketAddr::V4 {
            ip: LOCALHOST,
            port: FIRST_EPHEMERAL_PORT + link as u16,
        };
        let (outbound, _, _) = Channel::init();
        let (inbound, _, _) = Channel::init();
        self.ports[at].backlog.push_back(link);
        self.links.push(Link { dialer, listener: at, accepted: false, outbound, inbound });
        proof {
            assert(self@.links =~= old(self)@.dial(address).links);
            assert(self@.listeners =~= old(self)@.dial(address).listeners);
            lemma_dial_valid(old(self)@, address);
        }
        Ok(link)
    }

    /// How many connections a listener has not accepted.
    pub fn backlog(&self, listener: usize) -> (count: usize)
        requires
            listener < self@.listeners.len(),
        ensures
            count == self@.listeners[listener as int].backlog.len(),
    {
        self.ports[listener].backlog.len()
    }

    /// Accepts the first connection that was made to a listener and not accepted: gives the
    /// address it was made from, and its number.
    pub fn accept(&mut self, listener: usize) -> (result: Option<(SocketAddr, usize)>)
        requires
            old(self).valid(),
            listener < old(self)@.listeners.len(),
        ensures
            final(self).valid(),
            ({
                let backlog = old(self)@.listeners[listener as int].backlog;
                match result {
                    Some((dialer, link)) => {
                        &&& backlog.len() > 0
                        &&& link == backlog[0]
                        &&& dialer == old(self)@.links[link as int].dialer
                        &&& final(self)@ == old(self)@.accept(listener)
                    },
                    None => backlog.len() == 0 && final(self)@ == old(self)@,
                }
            }),
    {
        let link = match self.ports[listener].backlog.pop_front() {
            Some(link) => link,
            None => {
                assert(self@ =~= old(self)@);
                return None;
            },
        };
        assert(old(self)@.valid_listener(listener as int));
        assert(old(self)@.listeners[listener as int].backlog[0] == link);
        self.links[link].accepted = true;
        proof {
            assert(self@.links =~= old(self)@.accept(listener).links);
            assert(self@.listeners =~= old(self)@.accept(listener).listeners);
            lemma_accept_valid(old(self)@, listener);
        }
        Some((self.links[link].dialer, link))
    }

    /// Sends `msg` from one end of a connection.
    pub fn send(&mut self, link: usize, dialer: bool, msg: &[u8])
        requires
            old(self).valid(),
            old(self)@.connected(link, dialer),
        ensures
            final(self).valid(),
            final(self)@ == old(self)@.send(link, dialer, msg@),
    {
        proof {
            let transfer = self@.transfer(link, dialer);
            assert(self@.valid_link(link as int));
            crate::mocks::law_received_is_what_was_sent(transfer, msg@, 0);
            lemma_carry_valid(self@, link, dialer, transfer.send(msg@));
        }
        if dialer {
            self.links[link].outbound.push(msg);
        } else {
            self.links[link].inbound.push(msg);
        }
        assert(self@ =~= old(self)@.send(link, dialer, msg@));
    }

    /// How many bytes one end of a connection can receive.
    pub fn available(&self, link: usize, dialer: bool) -> (count: usize)
        requires
            self.valid(),
            self@.connected(link, dialer),
        ensures
            count == self@.transfer(link, !dialer).pending().len(),
    {
        if dialer {
            self.links[link].inbound.available()
        } else {
            self.links[link].outbound.available()
        }
    }

    /// Gives one end of a connection up for sending.
    pub fn close(&mut self, link: usize, dialer: bool)
        requires
            old(self).valid(),
            old(self)@.connected(link, dialer),
        ensures
            final(self).valid(),
            final(self)@ == old(self)@.close(link, dialer),
    {
        proof {
            let transfer = self@.transfer(link, dialer);
            assert(self@.valid_link(link as int));
            lemma_carry_valid(self@, link, dialer, transfer.close());
        }
        if dialer {
            self.links[link].outbound.close();
        } else {
            self.links[link].inbound.close();
        }
        assert(self@ =~= old(self)@.close(link, dialer));
    }

    /// Fills `buf` at one end of a connection with what the other end sent next, if it has sent
    /// as much.
    pub fn recv(&mut self, link: usize, dialer: bool, buf: &mut [u8]) -> (result: Poll<
        Result<(), Error>,
    >)
        requires
            old(self).valid(),
            old(self)@.connected(link, dialer),
        ensures
            final(self).valid(),
            result == old(self)@.transfer(link, !dialer).answer(old(buf)@.len()),
            final(self)@ == old(self)@.recv(link, !dialer, old(buf)@.len()),
            final(buf)@ == old(self)@.transfer(link, !dialer).filled(old(buf)@),
    {
        proof {
            let transfer = self@.transfer(link, !dialer);
            let len = buf@.len();
            assert(self@.valid_link(link as int));
            crate::mocks::law_received_is_what_was_sent(transfer, Seq::empty(), len);
            lemma_carry_valid(self@, link, !dialer, transfer.recv(len));
        }
        let result = if dialer {
            self.links[link].inbound.pull(buf)
        } else {
            self.links[link].outbound.pull(buf)
        };
        assert(self@ =~= old(self)@.recv(link, !dialer, old(buf)@.len()));
        result
    }
}

/// An address that was bound to can be dialed while there are ports left, and cannot be bound to
/// again.
pub proof fn law_bound_address_is_taken(t: Topology, address: SocketAddr)
    requires
        t.valid(),
        t.may_bind(address),
    ensures
        t.bind(address).bound(address),
        !t.bind(address).may_bind(address),
        t.links.len() < EPHEMERAL_PORTS ==> t.bind(address).may_dial(address),
{
    assert(t.bind(address).listeners.last().address == address);
}

/// Connections to a listener are accepted in the order in which they were made, and dialing one
/// address changes nothing for the listeners at others.
pub proof fn law_connections_are_accepted_in_order(t: Topology, address: SocketAddr, listener: usize)
    requires
        t.valid(),
        t.may_dial(address),
        listener < t.listeners.len(),
    ensures
        t.dial(address).listeners[listener as int].backlog == (if t.listeners[listener as int].address
            == address {
            t.listeners[listener as int].backlog.push(t.links.len() as usize)
        } else {
            t.listeners[listener as int].backlog
        }),
        t.accept(listener).listeners[listener as int].backlog
            == t.listeners[listener as int].backlog.drop_first(),
        forall|a: int, b: int|
            0 <= a < b < t.listeners[listener as int].backlog.len()
                ==> t.listeners[listener as int].backlog[a]
                < t.listeners[listener as int].backlog[b],
{
    assert(t.listeners[t.listener_at(address)].address == address);
    assert(t.valid_listener(listener as int));
}

/// A connection waits for its listener until it is accepted, and for none once it has been.
pub proof fn law_connection_is_accepted_once(t: Topology, link: int)
    requires
        t.valid(),
        0 <= link < t.links.len(),
    ensures
        !t.links[link].accepted ==> t.listeners[t.links[link].listener as int].backlog.contains(
            link as usize,
        ),
        t.links[link].accepted ==> forall|i: int|
            0 <= i < t.listeners.len() ==> !(#[trigger] t.listeners[i]).backlog.contains(
                link as usize,
            ),
{
    assert(t.valid_link(link));
    if t.links[link].accepted {
        assert forall|i: int| 0 <= i < t.listeners.len() implies !(
        #[trigger] t.listeners[i]).backlog.contains(link as usize) by {
            assert(t.valid_listener(i));
        }
    }
}

/// No two connections are made from the same address, and no listener is bound to one that a
/// connection was made from.
pub proof fn law_dialers_have_addresses_of_their_own(t: Topology, link: int, other: int)
    requires
        t.valid(),
        0 <= link < t.links.len(),
        0 <= other < t.links.len(),
    ensures
        link != other ==> t.links[link].dialer != t.links[other].dialer,
        !t.bound(t.links[link].dialer),
{
    assert(t.valid_link(link));
    assert(t.valid_link(other));
    if t.bound(t.links[link].dialer) {
        assert(t.valid_listener(t.listener_at(t.links[link].dialer)));
    }
}

/// What one end of a connection sends, the other end receives; what that end sends, and every
/// other connection, is left alone.
pub proof fn law_message_crosses(t: Topology, link: usize, dialer: bool, msg: Seq<u8>, other: int)
    requires
        t.valid(),
        t.connected(link, dialer),
        t.transfer(link, dialer).pending().len() == 0,
    ensures
        ({
            let sent = t.send(link, dialer, msg);
            let received = sent.recv(link, dialer, msg.len());
            &&& sent.transfer(link, dialer).pending().take(msg.len() as int) == msg
            &&& received.transfer(link, dialer).pending().len() == 0
            &&& received.transfer(link, !dialer) == t.transfer(link, !dialer)
            &&& 0 <= other < t.links.len() && other != link ==> received.links[other]
                == t.links[other]
            &&& received.listeners == t.listeners
        }),
{
    assert(t.valid_link(link as int));
    crate::mocks::law_message_arrives(t.transfer(link, dialer), msg);
}

/// An address can be bound to unless a listener is bound to it already, or it is one of those of
/// the local host that connections are made from.
pub proof fn law_who_may_bind(t: Topology, address: SocketAddr)
    ensures
        t.may_bind(address) <==> {
            &&& forall|i: int|
                0 <= i < t.listeners.len() ==> (#[trigger] t.listeners[i]).address != address
            &&& match address {
                SocketAddr::V4 { ip, port } => ip != 0x7f00_0001 || port < 32768 || port > 60999,
                SocketAddr::V6 { .. } => true,
            }
        },
{
}

/// An address can be dialed whenever a listener is bound to it, whatever else was bound before or
/// since, as long as there are ports left to dial from.
pub proof fn law_who_may_dial(t: Topology, address: SocketAddr)
    ensures
        t.may_dial(address) <==> t.links.len() < 28232 && exists|i: int|
            0 <= i < t.listeners.len() && (#[trigger] t.listeners[i]).address == address,
        forall|i: int|
            0 <= i < t.listeners.len() && t.links.len() < 28232 ==> t.may_dial(
                (#[trigger] t.listeners[i]).address,
            ),
{
    assert forall|i: int| 0 <= i < t.listeners.len() && t.links.len() < 28232 implies t.may_dial(
        (#[trigger] t.listeners[i]).address,
    ) by {
        assert(t.bound(t.listeners[i].address));
    }
}

/// Binding another address keeps every address that could be dialed so.
pub proof fn law_binding_keeps_what_can_be_dialed(
    t: Topology,
    address: SocketAddr,
    other: SocketAddr,
)
    requires
        t.valid(),
        t.may_bind(address),
        t.may_dial(other),
    ensures
        t.bind(address).may_dial(other),
{
    let i = choose|i: int| 0 <= i < t.listeners.len() && (#[trigger] t.listeners[i]).address == other;
    assert(t.bind(address).listeners[i].address == other);
}

/// Binding adds a listener for which no connection waits, and changes nothing else.
pub proof fn law_binding_only_adds_a_listener(t: Topology, address: SocketAddr)
    requires
        t.valid(),
        t.listeners.len() < usize::MAX,
        t.may_bind(address),
    ensures
        ({
            let after = t.bind(address);
            let last = after.listeners[t.listeners.len() as int];
            &&& after.valid()
            &&& after.links == t.links
            &&& after.listeners.len() == t.listeners.len() + 1
            &&& last.address == address
            &&& last.backlog.len() == 0
            &&& forall|i: int|
                0 <= i < t.listeners.len() ==> #[trigger] after.listeners[i] == t.listeners[i]
        }),
{
    lemma_bind_valid(t, address);
}

/// Dialing the address of a listener makes a connection, over which nothing was sent, from the
/// next port of the local host; it waits for that listener, after those that do already. Nothing
/// else changes.
pub proof fn law_dialing_only_adds_a_connection(t: Topology, listener: int)
    requires
        t.valid(),
        0 <= listener < t.listeners.len(),
        t.links.len() < 28232,
    ensures
        ({
            let address = t.listeners[listener].address;
            let after = t.dial(address);
            let link = after.links[t.links.len() as int];
            &&& after.valid()
            &&& after.listeners.len() == t.listeners.len()
            &&& after.listeners[listener].address == address
            &&& after.listeners[listener].backlog == t.listeners[listener].backlog.push(
                t.links.len() as usize,
            )
            &&& forall|i: int|
                0 <= i < t.listeners.len() && i != listener ==> #[trigger] after.listeners[i]
                    == t.listeners[i]
            &&& after.links.len() == t.links.len() + 1
            &&& forall|k: int| 0 <= k < t.links.len() ==> #[trigger] after.links[k] == t.links[k]
            &&& link.dialer == (SocketAddr::V4 {
                ip: 0x7f00_0001,
                port: (32768 + t.links.len()) as u16,
            })
            &&& link.listener == listener
            &&& !link.accepted
            &&& link.outbound.sent.len() == 0
            &&& link.outbound.received.len() == 0
            &&& !link.outbound.closed
            &&& link.inbound.sent.len() == 0
            &&& link.inbound.received.len() == 0
            &&& !link.inbound.closed
        }),
{
    let address = t.listeners[listener].address;
    assert(t.bound(address));
    let at = t.listener_at(address);
    assert(0 <= at < t.listeners.len() && t.listeners[at].address == address);
    assert(at == listener);
    lemma_dial_valid(t, address);
}

/// Accepting takes the first connection that waits for the listener, and changes neither another
/// connection, nor another listener, nor what any connection carries.
pub proof fn law_accepting_takes_one_connection(t: Topology, listener: usize)
    requires
        t.valid(),
        listener < t.listeners.len(),
        t.listeners[listener as int].backlog.len() > 0,
    ensures
        ({
            let after = t.accept(listener);
            let backlog = t.listeners[listener as int].backlog;
            let link = backlog[0] as int;
            &&& after.valid()
            &&& after.listeners.len() == t.listeners.len()
            &&& after.listeners[listener as int].address == t.listeners[listener as int].address
            &&& after.listeners[listener as int].backlog == backlog.skip(1)
            &&& forall|i: int|
                0 <= i < t.listeners.len() && i != listener ==> #[trigger] after.listeners[i]
                    == t.listeners[i]
            &&& after.links.len() == t.links.len()
            &&& !t.links[link].accepted
            &&& after.links[link].accepted
            &&& after.links[link].dialer == t.links[link].dialer
            &&& after.links[link].listener == t.links[link].listener
            &&& after.links[link].outbound == t.links[link].outbound
            &&& after.links[link].inbound == t.links[link].inbound
            &&& forall|k: int|
                0 <= k < t.links.len() && k != link ==> #[trigger] after.links[k] == t.links[k]
        }),
{
    lemma_accept_valid(t, listener);
    assert(t.valid_listener(listener as int));
    let backlog = t.listeners[listener as int].backlog;
    assert(backlog[0] < t.links.len());
    assert(backlog.drop_first() =~= backlog.skip(1));
}

/// The end that a connection was made from is there as long as the connection is, the other end
/// from when it was accepted.
pub proof fn law_which_ends_are_connected(t: Topology, link: usize)
    ensures
        t.connected(link, true) <==> link < t.links.len(),
        t.connected(link, false) <==> link < t.links.len() && t.links[link as int].accepted,
{
}

/// Whether nothing but what goes in one direction of one connection differs.
pub open spec fn differs_only_in(
    before: Topology,
    after: Topology,
    link: usize,
    from_dialer: bool,
) -> bool {
    &&& after.listeners == before.listeners
    &&& after.links.len() == before.links.len()
    &&& forall|k: int|
        0 <= k < before.links.len() && k != link ==> #[trigger] after.links[k] == before.links[k]
    &&& after.links[link as int].dialer == before.links[link as int].dialer
    &&& after.links[link as int].listener == before.links[link as int].listener
    &&& after.links[link as int].accepted == before.links[link as int].accepted
    &&& from_dialer ==> after.links[link as int].inbound == before.links[link as int].inbound
    &&& !from_dialer ==> after.links[link as int].outbound == before.links[link as int].outbound
}

/// What the dialer sends goes out, what the other end sends comes in: sending at one end, giving
/// it up and receiving at the other change that direction of that connection only, just as they
/// would change a channel of its own.
pub proof fn law_ends_share_one_direction(
    t: Topology,
    link: usize,
    from_dialer: bool,
    msg: Seq<u8>,
    len: nat,
)
    requires
        link < t.links.len(),
    ensures
        differs_only_in(t, t.send(link, from_dialer, msg), link, from_dialer),
        differs_only_in(t, t.recv(link, from_dialer, len), link, from_dialer),
        differs_only_in(t, t.close(link, from_dialer), link, from_dialer),
        from_dialer ==> {
            &&& t.transfer(link, true) == t.links[link as int].outbound
            &&& t.send(link, true, msg).links[link as int].outbound
                == t.links[link as int].outbound.send(msg)
            &&& t.recv(link, true, len).links[link as int].outbound
                == t.links[link as int].outbound.recv(len)
            &&& t.close(link, true).links[link as int].outbound
                == t.links[link as int].outbound.close()
        },
        !from_dialer ==> {
            &&& t.transfer(link, false) == t.links[link as int].inbound
            &&& t.send(link, false, msg).links[link as int].inbound
                == t.links[link as int].inbound.send(msg)
            &&& t.recv(link, false, len).links[link as int].inbound
                == t.links[link as int].inbound.recv(len)
            &&& t.close(link, false).links[link as int].inbound
                == t.links[link as int].inbound.close()
        },
{
}

} // verus!
