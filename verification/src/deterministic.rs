//! A runtime in which the same tasks always execute in the same way.
use crate::clock::Clock;
use crate::error::Error;
use crate::handle::{Handle, HandleState};
use crate::memory::{addressable, count_open, says_missing, Memory, Volume};
use crate::metrics::{occurs, scope, scoped, Metrics, METRICS_PREFIX};
use crate::network::{Listener as _, Network, Poll, Sink as _, SocketAddr, Stream as _};
use crate::partition::before;
use crate::registry::{
    counters, encode_eof, encode_registry, entries, families, family, lemma_family_occurs,
    lemma_occurs_within, new_registry, number, plain, register_const_gauge, register_counter, renders,
    shows,
};
use crate::scheduler::{Action, Alarm, Schedule, Scheduler};
use crate::signal::{signalled, Signal, Signaler};
use crate::state::Shared;
use crate::storage::{exists_in, lists, name_of, readable, Blobs};
use crate::switch::{law_connections_are_accepted_in_order, Switch, Topology};
use crate::task::{Runner, Spawner};
use crate::time::{Duration, SystemTime};
use prometheus_client::metrics::counter::Counter;
use prometheus_client::registry::Registry;
use vstd::prelude::*;

verus! {

/// All that the contexts of a runtime share, as plain values.
pub struct RuntimeState {
    /// The tasks and the clock.
    pub schedule: Schedule,
    /// What is stored.
    pub volume: Volume,
    /// The listeners and the connections.
    pub topology: Topology,
    /// The value that the runtime was stopped with, if it was.
    pub stop_value: Option<i32>,
    /// The metrics that were registered.
    pub metrics: Seq<(Seq<char>, Seq<char>, Option<int>)>,
    /// The counters among them, each at its place.
    pub counters: Seq<Option<Counter<u64>>>,
}

/// All that the contexts of a runtime share.
pub struct Runtime {
    scheduler: Scheduler,
    storage: Memory,
    switch: Switch,
    signaler: Signaler,
    registry: Registry,
}

impl View for Runtime {
    type V = RuntimeState;

    closed spec fn view(&self) -> RuntimeState {
        RuntimeState {
            schedule: self.scheduler@,
            volume: self.storage@,
            topology: self.switch@,
            stop_value: self.signaler@,
            metrics: entries(self.registry),
            counters: counters(self.registry),
        }
    }
}

impl Shared for Runtime {
    closed spec fn valid(&self) -> bool {
        &&& self.scheduler@.valid()
        &&& self.storage.valid()
        &&& self.switch.valid()
        &&& plain(self.registry)
        &&& counters(self.registry).len() == entries(self.registry).len()
    }

    open spec fn follows(&self, earlier: &Runtime) -> bool {
        &&& earlier@.volume.descriptors.len() <= self@.volume.descriptors.len()
        &&& self@.topology.follows(earlier@.topology)
    }
}

impl RuntimeState {
    /// A runtime at the epoch that has only its first task, stores nothing, has no listeners, no
    /// connections and no metrics, and was not stopped.
    pub open spec fn start() -> RuntimeState {
        RuntimeState {
            schedule: Schedule::start(),
            volume: Volume::empty(),
            topology: Topology::empty(),
            stop_value: None,
            metrics: Seq::empty(),
            counters: Seq::empty(),
        }
    }
}

/// Starts the root task of a runtime.
pub struct Executor {}

/// What a task does its work in.
pub struct Context {
    label: String,
    spawned: bool,
}

/// What is known of a context.
pub struct ContextState {
    /// Its label.
    pub label: Seq<char>,
    /// Whether a task was spawned from it.
    pub spawned: bool,
}

impl View for Context {
    type V = ContextState;

    closed spec fn view(&self) -> ContextState {
        ContextState { label: self.label@, spawned: self.spawned }
    }
}

impl Clone for Context {
    /// Another context with the same label, from which no task was spawned.
    fn clone(&self) -> (context: Self)
        ensures
            context@ == (ContextState { label: self@.label, spawned: false }),
    {
        Context { label: self.label.clone(), spawned: false }
    }
}

impl Executor {
    /// A new runtime: what starts it, the context of its root task, and its state.
    pub fn default() -> (parts: (Executor, Context, Runtime))
        ensures
            parts.1@ == (ContextState { label: Seq::empty(), spawned: false }),
            parts.2@ == RuntimeState::start(),
            parts.2.valid(),
    {
        let context = Context { label: String::new(), spawned: false };
        let runtime = Runtime {
            scheduler: Scheduler::new(),
            storage: Memory::new(),
            switch: Switch::new(),
            signaler: Signaler::new(),
            registry: new_registry(),
        };
        (Executor {  }, context, runtime)
    }
}

impl Runner for Executor {
    fn start<F, T>(self, f: F) -> (output: T) where F: FnOnce() -> T {
        f()
    }
}

impl Runtime {
    /// Decides on the next step.
    pub fn next(&mut self) -> (action: Action)
        requires
            old(self).valid(),
        ensures
            final(self).valid(),
            (action, final(self)@.schedule) == old(self)@.schedule.next(),
            final(self)@ == (RuntimeState { schedule: final(self)@.schedule, ..old(self)@ }),
    {
        self.scheduler.next()
    }

    /// Lets a task take its turn after the tasks that are ready, if it was suspended.
    pub fn wake(&mut self, task: usize)
        requires
            old(self).valid(),
            task < old(self)@.schedule.tasks.len(),
        ensures
            final(self).valid(),
            final(self)@ == (RuntimeState {
                schedule: old(self)@.schedule.wake(task),
                ..old(self)@
            }),
    {
        self.scheduler.wake(task)
    }

    /// Ends a task.
    pub fn finish(&mut self, task: usize)
        requires
            old(self).valid(),
            task < old(self)@.schedule.tasks.len(),
        ensures
            final(self).valid(),
            final(self)@ == (RuntimeState {
                schedule: old(self)@.schedule.finish(task),
                ..old(self)@
            }),
    {
        self.scheduler.finish(task)
    }

    /// Wakes a task once `deadline` has come.
    pub fn arm(&mut self, task: usize, deadline: SystemTime)
        requires
            old(self).valid(),
            task < old(self)@.schedule.tasks.len(),
        ensures
            final(self).valid(),
            final(self)@ == (RuntimeState {
                schedule: old(self)@.schedule.arm(Alarm { deadline: deadline.nanos, task }),
                ..old(self)@
            }),
    {
        self.scheduler.arm(Alarm { deadline: deadline.nanos, task })
    }

    /// Whether `deadline` has come.
    pub fn is_due(&self, deadline: SystemTime) -> (due: bool)
        ensures
            due == (deadline.nanos <= self@.schedule.now),
    {
        deadline.nanos <= self.scheduler.now()
    }

    /// How many tasks there have been.
    pub fn task_count(&self) -> (count: usize)
        ensures
            count == self@.schedule.tasks.len(),
    {
        self.scheduler.task_count()
    }

    /// Where the runtime is signalled to stop.
    pub fn signaler(&self) -> (signaler: &Signaler)
        ensures
            signaler@ == self@.stop_value,
    {
        &self.signaler
    }
}

impl Context {
    /// Whether a task was spawned from this context.
    pub fn is_spawned(&self) -> (spawned: bool)
        ensures
            spawned == self@.spawned,
    {
        self.spawned
    }
}

impl Clock<Runtime> for Context {
    open spec fn reached(runtime: &Runtime) -> int {
        runtime@.schedule.now as int
    }

    fn current(&self, runtime: &mut Runtime) -> (time: SystemTime)
        ensures
            time.nanos == old(runtime)@.schedule.now,
            final(runtime)@ == old(runtime)@,
    {
        SystemTime { nanos: runtime.scheduler.now() }
    }

    fn sleep(&self, runtime: &mut Runtime, duration: Duration)
        ensures
            final(runtime)@ == (RuntimeState {
                schedule: old(runtime)@.schedule.advance(
                    (old(runtime)@.schedule.now + duration.nanos) as u128,
                ),
                ..old(runtime)@
            }),
            final(runtime)@.schedule.now == old(runtime)@.schedule.now + duration.nanos,
    {
        let deadline: u128 = runtime.scheduler.now() + duration.nanos;
        proof {
            crate::scheduler::lemma_advance_frame(runtime@.schedule, deadline);
        }
        runtime.scheduler.advance(deadline);
    }

    fn sleep_until(&self, runtime: &mut Runtime, deadline: SystemTime)
        ensures
            final(runtime)@ == (RuntimeState {
                schedule: old(runtime)@.schedule.advance(deadline.nanos),
                ..old(runtime)@
            }),
    {
        proof {
            crate::scheduler::lemma_advance_frame(runtime@.schedule, deadline.nanos);
        }
        runtime.scheduler.advance(deadline.nanos);
    }
}

impl Spawner<Runtime> for Context {
    open spec fn spawned(&self) -> bool {
        self@.spawned
    }

    open spec fn stop_value(runtime: &Runtime) -> Option<i32> {
        runtime@.stop_value
    }

    fn spawn<T>(self, runtime: &mut Runtime) -> (task: (Self, Handle<T>))
        ensures
            task.0@ == (ContextState { label: self@.label, spawned: false }),
            task.1@ == (HandleState::<T> {
                task: old(runtime)@.schedule.tasks.len() as usize,
                blocking: false,
                outcome: None,
            }),
            final(runtime)@ == (RuntimeState {
                schedule: old(runtime)@.schedule.spawn(),
                ..old(runtime)@
            }),
    {
        let task = runtime.scheduler.spawn();
        (Context { label: self.label, spawned: false }, Handle::new(task, false))
    }

    fn spawn_ref<T>(&mut self, runtime: &mut Runtime) -> (handle: Handle<T>)
        ensures
            final(self)@ == (ContextState { label: old(self)@.label, spawned: true }),
            handle@ == (HandleState::<T> {
                task: old(runtime)@.schedule.tasks.len() as usize,
                blocking: false,
                outcome: None,
            }),
            final(runtime)@ == (RuntimeState {
                schedule: old(runtime)@.schedule.spawn(),
                ..old(runtime)@
            }),
    {
        self.spawned = true;
        let task = runtime.scheduler.spawn();
        Handle::new(task, false)
    }

    fn spawn_blocking<T>(self, runtime: &mut Runtime) -> (handle: Handle<T>)
        ensures
            handle@ == (HandleState::<T> {
                task: old(runtime)@.schedule.tasks.len() as usize,
                blocking: true,
                outcome: None,
            }),
            final(runtime)@ == (RuntimeState {
                schedule: old(runtime)@.schedule.spawn(),
                ..old(runtime)@
            }),
    {
        let task = runtime.scheduler.spawn();
        Handle::new(task, true)
    }

    fn stop(&self, runtime: &mut Runtime, value: i32)
        ensures
            final(runtime)@ == (RuntimeState {
                stop_value: signalled(old(runtime)@.stop_value, value),
                ..old(runtime)@
            }),
    {
        runtime.signaler.signal(value);
    }

    fn stopped(&self, runtime: &Runtime) -> (signal: Signal) {
        runtime.signaler.subscribe()
    }
}

/// The name of the metric that counts the blobs that are open.
pub open spec fn open_blobs_name() -> Seq<char> {
    scoped(METRICS_PREFIX@, "open_blobs"@)
}

/// The number that a gauge shows for a count.
pub open spec fn gauge_value(count: nat) -> int {
    if count <= i64::MAX {
        count as int
    } else {
        i64::MAX as int
    }
}

/// The metrics of the runtime itself.
pub open spec fn own_metrics(state: RuntimeState) -> Seq<(Seq<char>, Seq<char>, Option<int>)> {
    seq![
        (
            open_blobs_name(),
            "Number of open blobs"@,
            Some(gauge_value(count_open(state.volume.descriptors))),
        ),
    ]
}

/// Whether `text` shows the registered metrics, then those of the runtime itself, and ends.
pub open spec fn exposes(text: Seq<char>, state: RuntimeState) -> bool {
    exists|registered: Seq<char>, own: Seq<char>| #[trigger]
        renders(registered, state.metrics) && #[trigger] renders(own, own_metrics(state)) && text
            == registered + own + "# EOF\n"@
}

impl Metrics<Runtime> for Context {
    open spec fn context_label(&self) -> Seq<char> {
        self@.label
    }

    open spec fn registered(runtime: &Runtime) -> Seq<(Seq<char>, Seq<char>, Counter<u64>)> {
        Seq::new(
            runtime@.metrics.len(),
            |i: int| (runtime@.metrics[i].0, runtime@.metrics[i].1, runtime@.counters[i]->0),
        )
    }

    fn label(&self) -> (label: String) {
        self.label.clone()
    }

    fn with_label(&self, label: &str) -> (nested: Self)
        ensures
            nested@ == (ContextState { label: scoped(self@.label, label@), spawned: false }),
    {
        Context { label: self.scoped_label(label), spawned: false }
    }

    fn register(&self, runtime: &mut Runtime, name: &str, help: &str, metric: Counter<u64>)
        ensures
            final(runtime)@ == (RuntimeState {
                metrics: old(runtime)@.metrics.push((scoped(self@.label, name@), help@, None)),
                counters: old(runtime)@.counters.push(Some(metric)),
                ..old(runtime)@
            }),
    {
        let full_name = scope(self.label.as_str(), name);
        register_counter(&mut runtime.registry, full_name, help, metric);
        assert(Self::registered(runtime) =~= Self::registered(old(runtime)).push(
            (scoped(self.context_label(), name@), help@, metric),
        ));
    }

    fn encode(&self, runtime: &Runtime) -> (buffer: String)
        ensures
            exposes(buffer@, runtime@),
    {
        let count = runtime.storage.open_blobs();
        let value: i64 = if count as u64 <= i64::MAX as u64 {
            count as i64
        } else {
            i64::MAX
        };
        let mut own = new_registry();
        register_const_gauge(
            &mut own,
            scope(METRICS_PREFIX, "open_blobs"),
            "Number of open blobs",
            value,
        );
        assert(entries(own) =~= own_metrics(runtime@));
        let mut buffer = encode_registry(&runtime.registry);
        let own_text = encode_registry(&own);
        let ghost registered = buffer@;
        buffer.append(own_text.as_str());
        encode_eof(&mut buffer);
        proof {
            assert forall|i: int| 0 <= i < Self::registered(runtime).len() implies occurs(
                (#[trigger] Self::registered(runtime)[i]).0,
                buffer@,
            ) by {
                let name = runtime@.metrics[i].0;
                crate::registry::law_rendered_metrics_are_named(registered, runtime@.metrics, i);
                let rest = own_text@ + "# EOF\n"@;
                crate::registry::lemma_occurs_within(name, Seq::empty(), registered, rest);
                assert(Seq::<char>::empty() + registered + rest =~= buffer@);
            }
        }
        buffer
    }
}

/// A listener: accepts connections that were made to the address that it is bound to.
pub struct Listener {
    id: usize,
}

/// The end of a connection that bytes go in at.
pub struct Sink {
    link: usize,
    dialer: bool,
}

/// The end of a connection that bytes come out at.
pub struct Stream {
    link: usize,
    dialer: bool,
}

/// One end of a connection.
pub struct End {
    /// The number of the connection.
    pub link: usize,
    /// Whether it is the end that the connection was made from.
    pub dialer: bool,
}

impl End {
    /// The end at the other side of the connection.
    pub open spec fn other(self) -> End {
        End { dialer: !self.dialer, ..self }
    }

    /// A number that no other end of a connection has.
    pub open spec fn number(self) -> int {
        2 * self.link + if self.dialer {
            1int
        } else {
            0
        }
    }
}

impl View for Listener {
    type V = usize;

    closed spec fn view(&self) -> usize {
        self.id
    }
}

impl View for Sink {
    type V = End;

    closed spec fn view(&self) -> End {
        End { link: self.link, dialer: self.dialer }
    }
}

impl View for Stream {
    type V = End;

    closed spec fn view(&self) -> End {
        End { link: self.link, dialer: self.dialer }
    }
}

impl Network<Runtime, Listener, Sink, Stream> for Context {
    fn bind(&self, runtime: &mut Runtime, socket: SocketAddr) -> (result: Result<Listener, Error>)
        ensures
            match result {
                Ok(listener) => {
                    &&& old(runtime)@.topology.may_bind(socket)
                    &&& listener@ == old(runtime)@.topology.listeners.len()
                    &&& final(runtime)@ == (RuntimeState {
                        topology: old(runtime)@.topology.bind(socket),
                        ..old(runtime)@
                    })
                },
                Err(error) => {
                    &&& !old(runtime)@.topology.may_bind(socket)
                    &&& error == Error::BindFailed
                    &&& final(runtime)@ == old(runtime)@
                },
            },
    {
        match runtime.switch.bind(socket) {
            Ok(id) => Ok(Listener { id }),
            Err(error) => Err(error),
        }
    }

    fn dial(&self, runtime: &mut Runtime, socket: SocketAddr) -> (result: Result<
        (Sink, Stream),
        Error,
    >)
        ensures
            match result {
                Ok((sink, stream)) => {
                    &&& old(runtime)@.topology.may_dial(socket)
                    &&& sink@ == (End {
                        link: old(runtime)@.topology.links.len() as usize,
                        dialer: true,
                    })
                    &&& stream@ == sink@
                    &&& final(runtime)@ == (RuntimeState {
                        topology: old(runtime)@.topology.dial(socket),
                        ..old(runtime)@
                    })
                },
                Err(error) => {
                    &&& !old(runtime)@.topology.may_dial(socket)
                    &&& error == Error::ConnectionFailed
                    &&& final(runtime)@ == old(runtime)@
                },
            },
    {
        let ghost topology = runtime.switch@;
        proof {
            runtime.switch.lemma_valid();
        }
        match runtime.switch.dial(socket) {
            Ok(link) => {
                let sink = Sink { link, dialer: true };
                let stream = Stream { link, dialer: true };
                assert forall|listener: Listener| #[trigger]
                    listener.bound(old(runtime)) == Some(socket) implies listener.waiting(runtime)
                    == listener.waiting(old(runtime)).push((sink.end(), stream.peer())) by {
                    law_connections_are_accepted_in_order(topology, socket, listener@);
                    assert(listener.waiting(runtime) =~= listener.waiting(old(runtime)).push(
                        (sink.end(), stream.peer()),
                    ));
                }
                Ok((sink, stream))
            },
            Err(error) => Err(error),
        }
    }
}

impl Listener {
    /// How many connections were made to the listener and not accepted.
    pub fn backlog(&self, runtime: &Runtime) -> (count: usize)
        requires
            self@ < runtime@.topology.listeners.len(),
        ensures
            count == runtime@.topology.listeners[self@ as int].backlog.len(),
    {
        runtime.switch.backlog(self.id)
    }
}

impl crate::network::Listener<Runtime, Sink, Stream> for Listener {
    open spec fn bound(&self, runtime: &Runtime) -> Option<SocketAddr> {
        if self@ < runtime@.topology.listeners.len() {
            Some(runtime@.topology.listeners[self@ as int].address)
        } else {
            None
        }
    }

    proof fn law_stays_bound(&self, earlier: &Runtime, later: &Runtime) {
    }

    open spec fn waiting(&self, runtime: &Runtime) -> Seq<(int, int)> {
        runtime@.topology.listeners[self@ as int].backlog.map_values(
            |link: usize|
                (End { link, dialer: true }.number(), End { link, dialer: false }.number()),
        )
    }

    fn accept(&mut self, runtime: &mut Runtime) -> (result: Poll<
        Result<(SocketAddr, Sink, Stream), Error>,
    >)
        ensures
            final(self)@ == old(self)@,
            ({
                let topology = old(runtime)@.topology;
                let backlog = topology.listeners[old(self)@ as int].backlog;
                match result {
                    Poll::Ready(Ok((address, sink, stream))) => {
                        &&& backlog.len() > 0
                        &&& address == topology.links[backlog[0] as int].dialer
                        &&& sink@ == (End { link: backlog[0], dialer: false })
                        &&& stream@ == sink@
                        &&& final(runtime)@ == (RuntimeState {
                            topology: topology.accept(old(self)@),
                            ..old(runtime)@
                        })
                    },
                    Poll::Ready(Err(_)) => false,
                    Poll::Pending => backlog.len() == 0 && final(runtime)@ == old(runtime)@,
                }
            }),
    {
        proof {
            runtime.switch.lemma_valid();
            let topology = runtime.switch@;
            assert(topology.valid_listener(self@ as int));
            if topology.listeners[self@ as int].backlog.len() > 0 {
                assert(topology.valid_link(topology.listeners[self@ as int].backlog[0] as int));
            }
        }
        match runtime.switch.accept(self.id) {
            Some((address, link)) => Poll::Ready(
                Ok((address, Sink { link, dialer: false }, Stream { link, dialer: false })),
            ),
            None => Poll::Pending,
        }
    }
}

impl crate::network::Sink<Runtime> for Sink {
    open spec fn connected(&self, runtime: &Runtime) -> bool {
        runtime@.topology.connected(self@.link, self@.dialer)
    }

    proof fn law_stays_connected(&self, earlier: &Runtime, later: &Runtime) {
    }

    open spec fn end(&self) -> int {
        self@.number()
    }

    open spec fn sent(&self, runtime: &Runtime) -> Seq<u8> {
        runtime@.topology.transfer(self@.link, self@.dialer).sent
    }

    fn send(&mut self, runtime: &mut Runtime, msg: &[u8]) -> (result: Result<(), Error>)
        ensures
            result is Ok,
            final(self)@ == old(self)@,
            final(runtime)@ == (RuntimeState {
                topology: old(runtime)@.topology.send(old(self)@.link, old(self)@.dialer, msg@),
                ..old(runtime)@
            }),
    {
        runtime.switch.send(self.link, self.dialer, msg);
        Ok(())
    }
}

impl Sink {
    /// Gives the sink up: no more bytes will be sent.
    pub fn close(self, runtime: &mut Runtime)
        requires
            old(runtime).valid(),
            old(runtime)@.topology.connected(self@.link, self@.dialer),
        ensures
            final(runtime).valid(),
            final(runtime)@ == (RuntimeState {
                topology: old(runtime)@.topology.close(self@.link, self@.dialer),
                ..old(runtime)@
            }),
    {
        runtime.switch.close(self.link, self.dialer);
    }
}

impl Stream {
    /// How many bytes the other end has sent that were not received.
    pub fn available(&self, runtime: &Runtime) -> (count: usize)
        requires
            runtime.valid(),
            runtime@.topology.connected(self@.link, self@.dialer),
        ensures
            count == runtime@.topology.transfer(self@.link, !self@.dialer).pending().len(),
    {
        runtime.switch.available(self.link, self.dialer)
    }
}

impl crate::network::Stream<Runtime> for Stream {
    type Peer = Sink;

    open spec fn connected(&self, runtime: &Runtime) -> bool {
        runtime@.topology.connected(self@.link, self@.dialer)
    }

    proof fn law_stays_connected(&self, earlier: &Runtime, later: &Runtime) {
    }

    open spec fn received(&self, runtime: &Runtime) -> Seq<u8> {
        runtime@.topology.transfer(self@.link, !self@.dialer).received
    }

    open spec fn incoming(&self, runtime: &Runtime) -> Seq<u8> {
        runtime@.topology.transfer(self@.link, !self@.dialer).sent
    }

    open spec fn peer(&self) -> int {
        self@.other().number()
    }

    proof fn law_incoming_is_what_was_sent(&self, sink: &Sink, runtime: &Runtime) {
    }

    fn recv(&mut self, runtime: &mut Runtime, buf: &mut [u8]) -> (result: Poll<Result<(), Error>>)
        ensures
            final(self)@ == old(self)@,
            ({
                let End { link, dialer } = old(self)@;
                let topology = old(runtime)@.topology;
                let len = old(buf)@.len();
                &&& result == topology.transfer(link, !dialer).answer(len)
                &&& final(buf)@ == topology.transfer(link, !dialer).filled(old(buf)@)
                &&& final(runtime)@ == (RuntimeState {
                    topology: topology.recv(link, !dialer, len),
                    ..old(runtime)@
                })
            }),
    {
        let result = runtime.switch.recv(self.link, self.dialer, buf);
        proof {
            runtime.switch.lemma_valid();
            assert(runtime.switch@.valid_link(self.link as int));
            let sent = self.incoming(runtime);
            assert(sent =~= sent.subrange(0, sent.len() as int));
        }
        result
    }
}

/// An open blob.
pub struct Blob {
    id: usize,
}

impl View for Blob {
    type V = usize;

    closed spec fn view(&self) -> usize {
        self.id
    }
}

impl Clone for Blob {
    fn clone(&self) -> (blob: Self)
        ensures
            blob == *self,
    {
        Blob { id: self.id }
    }
}

impl crate::storage::Storage<Runtime> for Context {
    type Blob = Blob;

    fn open(&self, runtime: &mut Runtime, partition: &str, name: &[u8]) -> (result: Result<
        Blob,
        Error,
    >)
        ensures
            result is Ok,
            result->Ok_0@ == old(runtime)@.volume.descriptors.len(),
            final(runtime)@ == (RuntimeState {
                volume: old(runtime)@.volume.open(partition@, name@),
                ..old(runtime)@
            }),
    {
        let id = runtime.storage.open(partition, name);
        Ok(Blob { id })
    }

    fn remove(&self, runtime: &mut Runtime, partition: &str, name: Option<&[u8]>) -> (result:
        Result<(), Error>)
        ensures
            final(runtime)@ == (RuntimeState {
                volume: old(runtime)@.volume.remove(partition@, name_of(name)),
                ..old(runtime)@
            }),
            match result {
                Ok(()) => exists_in(old(runtime)@.volume.partitions, partition@, name_of(name)),
                Err(error) => !exists_in(
                    old(runtime)@.volume.partitions,
                    partition@,
                    name_of(name),
                ) && says_missing(
                    error,
                    old(runtime)@.volume.partitions,
                    partition@,
                    name_of(name),
                ),
            },
    {
        runtime.storage.remove(partition, name)
    }

    fn scan(&self, runtime: &Runtime, partition: &str) -> (result: Result<Vec<Vec<u8>>, Error>)
        ensures
            match result {
                Ok(names) => {
                    &&& runtime@.volume.partitions.dom().contains(partition@)
                    &&& lists(names@, runtime@.volume.partitions[partition@])
                    &&& forall|i: int, j: int|
                        0 <= i < j < names@.len() ==> before(
                            (#[trigger] names@[i])@,
                            (#[trigger] names@[j])@,
                        )
                },
                Err(error) => !runtime@.volume.partitions.dom().contains(partition@)
                    && says_missing(error, runtime@.volume.partitions, partition@, None),
            },
    {
        runtime.storage.scan(partition)
    }
}

impl crate::storage::Blob<Runtime> for Blob {
    open spec fn opened(&self, runtime: &Runtime) -> bool {
        self@ < runtime@.volume.descriptors.len()
    }

    proof fn law_stays_opened(&self, earlier: &Runtime, later: &Runtime) {
    }

    open spec fn contents(&self, runtime: &Runtime) -> Seq<u8> {
        runtime@.volume.descriptors[self@ as int].contents
    }

    open spec fn place(&self, runtime: &Runtime) -> (Seq<char>, Seq<u8>) {
        let descriptor = runtime@.volume.descriptors[self@ as int];
        (descriptor.partition, descriptor.name)
    }

    open spec fn durable(runtime: &Runtime) -> Map<Seq<char>, Blobs> {
        runtime@.volume.partitions
    }

    fn len(&self, runtime: &Runtime) -> (result: Result<u64, Error>)
        ensures
            result is Ok,
    {
        Ok(runtime.storage.len(self.id))
    }

    fn read_at(&self, runtime: &Runtime, buf: &mut [u8], offset: u64) -> (result: Result<
        (),
        Error,
    >)
        ensures
            result is Ok <==> offset + old(buf)@.len() <= runtime@.volume.descriptors[self@ as int].contents.len(),
            result == Err::<(), Error>(Error::OffsetOverflow) <==> offset + old(buf)@.len()
                > runtime@.volume.descriptors[self@ as int].contents.len() && offset + old(buf)@.len() > isize::MAX,
            result == Err::<(), Error>(Error::BlobInsufficientLength) <==> runtime@.volume.descriptors[self@ as int].contents.len() < offset
                + old(buf)@.len() <= isize::MAX,
            result is Ok ==> forall|i: int|
                0 <= i < old(buf)@.len() ==> #[trigger] final(buf)@[i] == runtime@.volume.descriptors[self@ as int].contents[offset + i],
            match result {
                Ok(()) => readable(self.contents(runtime), offset as nat, old(buf)@.len()),
                Err(Error::OffsetOverflow) => !addressable(offset as nat, old(buf)@.len())
                    && final(buf)@ == old(buf)@,
                Err(Error::BlobInsufficientLength) => addressable(offset as nat, old(buf)@.len())
                    && !readable(self.contents(runtime), offset as nat, old(buf)@.len())
                    && final(buf)@ == old(buf)@,
                Err(_) => false,
            },
    {
        runtime.storage.read_at(self.id, buf, offset)
    }

    fn write_at(&self, runtime: &mut Runtime, buf: &[u8], offset: u64) -> (result: Result<
        (),
        Error,
    >)
        ensures
            offset + buf@.len() <= isize::MAX ==> result is Ok,
            offset + buf@.len() > isize::MAX ==> result == Err::<(), Error>(Error::OffsetOverflow),
            match result {
                Ok(()) => addressable(offset as nat, buf@.len()) && final(runtime)@ == (
                RuntimeState {
                    volume: old(runtime)@.volume.write(self@, offset as nat, buf@),
                    ..old(runtime)@
                }),
                Err(error) => error == Error::OffsetOverflow && !addressable(
                    offset as nat,
                    buf@.len(),
                ) && final(runtime)@ == old(runtime)@,
            },
    {
        runtime.storage.write_at(self.id, buf, offset)
    }

    fn truncate(&self, runtime: &mut Runtime, len: u64) -> (result: Result<(), Error>)
        ensures
            result is Ok,
            final(runtime)@ == (RuntimeState {
                volume: old(runtime)@.volume.truncate(self@, len as nat),
                ..old(runtime)@
            }),
    {
        runtime.storage.truncate(self.id, len);
        Ok(())
    }

    fn sync(&self, runtime: &mut Runtime) -> (result: Result<(), Error>)
        ensures
            final(runtime)@ == (RuntimeState {
                volume: old(runtime)@.volume.sync(self@),
                ..old(runtime)@
            }),
            match result {
                Ok(()) => old(runtime)@.volume.persisted(self@) is Some,
                Err(error) => old(runtime)@.volume.persisted(self@) is None && says_missing(
                    error,
                    old(runtime)@.volume.partitions,
                    old(runtime)@.volume.descriptors[self@ as int].partition,
                    Some(old(runtime)@.volume.descriptors[self@ as int].name),
                ),
            },
    {
        runtime.storage.sync(self.id)
    }

    fn close(self, runtime: &mut Runtime) -> (result: Result<(), Error>)
        ensures
            final(runtime)@ == (RuntimeState {
                volume: old(runtime)@.volume.close(self@),
                ..old(runtime)@
            }),
            match result {
                Ok(()) => old(runtime)@.volume.persisted(self@) is Some,
                Err(error) => old(runtime)@.volume.persisted(self@) is None && says_missing(
                    error,
                    old(runtime)@.volume.partitions,
                    old(runtime)@.volume.descriptors[self@ as int].partition,
                    Some(old(runtime)@.volume.descriptors[self@ as int].name),
                ),
            },
    {
        runtime.storage.close(self.id)
    }
}

/// Whatever is done to a runtime, its tasks, its alarms, its listeners and its connections stay
/// consistent.
pub proof fn law_runtime_stays_consistent(runtime: &Runtime)
    requires
        runtime.valid(),
    ensures
        runtime@.schedule.valid(),
        runtime@.topology.valid(),
{
    runtime.switch.lemma_valid();
}

/// A new runtime is at the epoch, with one task that is ready; it stores nothing, has no
/// listeners, no connections and no metrics, and was not stopped.
pub proof fn law_new_runtime_is_empty()
    ensures
        ({
            let state = RuntimeState::start();
            &&& state.schedule.now == 0
            &&& state.schedule.tasks == seq![crate::scheduler::Status::Ready]
            &&& state.schedule.ready == seq![0usize]
            &&& state.schedule.alarms.len() == 0
            &&& state.volume.partitions.dom() == Set::<Seq<char>>::empty()
            &&& state.volume.descriptors.len() == 0
            &&& state.topology.listeners.len() == 0
            &&& state.topology.links.len() == 0
            &&& state.stop_value is None
            &&& state.metrics.len() == 0
            &&& state.counters.len() == 0
        }),
{
    crate::scheduler::law_run_starts_with_the_root();
}

/// The runtime's own metric is a gauge with the number of blobs that were opened and not closed.
pub proof fn law_open_blobs_are_shown(state: RuntimeState)
    requires
        state.volume.descriptors.filter(
            |blob: crate::memory::Descriptor| blob.open,
        ).len() <= i64::MAX,
    ensures
        own_metrics(state).len() == 1,
        own_metrics(state)[0].0 == "runtime_open_blobs"@,
        own_metrics(state)[0].1 == "Number of open blobs"@,
        own_metrics(state)[0].2 == Some(
            state.volume.descriptors.filter(
                |blob: crate::memory::Descriptor| blob.open,
            ).len() as int,
        ),
{
    crate::memory::law_count_is_of_what_is_open(state.volume.descriptors);
    reveal_strlit("runtime");
    reveal_strlit("_");
    reveal_strlit("open_blobs");
    reveal_strlit("runtime_open_blobs");
    assert(open_blobs_name() =~= "runtime_open_blobs"@);
}

/// An exposition has the lines of every metric that was registered and of the runtime's own, and
/// ends with the marker of its end.
pub proof fn law_exposition_is_complete(text: Seq<char>, state: RuntimeState)
    requires
        exposes(text, state),
    ensures
        "# EOF\n"@.is_suffix_of(text),
        forall|i: int|
            0 <= i < state.metrics.len() ==> exists|value: int|
                occurs(
                    "# HELP "@ + (#[trigger] state.metrics[i]).0 + " "@ + state.metrics[i].1
                        + ".\n# TYPE "@ + state.metrics[i].0 + " "@ + (
                    if state.metrics[i].2 is Some {
                        "gauge"@
                    } else {
                        "counter"@
                    }) + "\n"@ + state.metrics[i].0 + (if state.metrics[i].2 is Some {
                        ""@
                    } else {
                        "_total"@
                    }) + " "@ + #[trigger] number(value) + "\n"@,
                    text,
                ),
        forall|i: int|
            0 <= i < own_metrics(state).len() ==> occurs(
                (#[trigger] own_metrics(state)[i]).0 + " "@ + number(own_metrics(state)[i].2->0)
                    + "\n"@,
                text,
            ),
{
    let (registered, own) = choose|registered: Seq<char>, own: Seq<char>| #[trigger]
        renders(registered, state.metrics) && #[trigger] renders(own, own_metrics(state)) && text
            == registered + own + "# EOF\n"@;
    let end = "# EOF\n"@;
    assert(text.subrange(text.len() - end.len(), text.len() as int) =~= end);
    assert forall|i: int| 0 <= i < state.metrics.len() implies exists|value: int|
        occurs(
            "# HELP "@ + (#[trigger] state.metrics[i]).0 + " "@ + state.metrics[i].1 + ".\n# TYPE "@
                + state.metrics[i].0 + " "@ + (if state.metrics[i].2 is Some {
                "gauge"@
            } else {
                "counter"@
            }) + "\n"@ + state.metrics[i].0 + (if state.metrics[i].2 is Some {
                ""@
            } else {
                "_total"@
            }) + " "@ + #[trigger] number(value) + "\n"@,
            text,
        ) by {
        let values = choose|values: Seq<int>| #[trigger]
            shows(state.metrics, values) && registered == families(state.metrics, values);
        lemma_family_occurs(state.metrics, values, i);
        lemma_occurs_within(
            family(state.metrics[i], values[i]),
            Seq::empty(),
            registered,
            own + end,
        );
        assert(Seq::<char>::empty() + registered + (own + end) =~= text);
        let value = values[i];
        assert(number(value) == number(values[i]));
    }
    assert forall|i: int| 0 <= i < own_metrics(state).len() implies occurs(
        (#[trigger] own_metrics(state)[i]).0 + " "@ + number(own_metrics(state)[i].2->0) + "\n"@,
        text,
    ) by {
        let metrics = own_metrics(state);
        let values = choose|values: Seq<int>| #[trigger]
            shows(metrics, values) && own == families(metrics, values);
        let entry = metrics[i];
        let lines = family(entry, values[i]);
        let line = entry.0 + " "@ + number(values[i]) + "\n"@;
        reveal_strlit("");
        let head = lines.take(lines.len() - line.len());
        assert(lines =~= head + line + Seq::<char>::empty());
        crate::metrics::law_text_occurs_between_others(line, lines, head, Seq::empty());
        lemma_family_occurs(metrics, values, i);
        lemma_nested(line, lines, own);
        lemma_occurs_within(line, registered, own, end);
    }
}

proof fn lemma_nested(inner: Seq<char>, middle: Seq<char>, outer: Seq<char>)
    requires
        occurs(inner, middle),
        occurs(middle, outer),
    ensures
        occurs(inner, outer),
{
    crate::metrics::law_text_occurs_between_others(middle, outer, Seq::empty(), Seq::empty());
    let at = choose|at: int|
        0 <= at <= outer.len() - middle.len() && outer == #[trigger] outer.take(at) + middle
            + outer.skip(at + middle.len());
    lemma_occurs_within(inner, outer.take(at), middle, outer.skip(at + middle.len()));
}

} // verus!
