//! The order in which tasks run, and when time moves.
use std::collections::VecDeque;
use vstd::prelude::*;

verus! {

/// The first task of a runtime: when it finishes, so does the run.
pub const ROOT: usize = 0;

/// What a task is doing.
#[derive(Clone, Copy, Debug, PartialEq, Eq, Structural)]
pub enum Status {
    /// Waiting for its turn to be polled.
    Ready,
    /// Being polled, or waiting to be woken.
    Suspended,
    /// Done: it is never polled again.
    Finished,
}

/// The next step of a run.
#[derive(Clone, Copy, Debug, PartialEq, Eq, Structural)]
pub enum Action {
    /// Poll the task of the given number.
    Poll(usize),
    /// End the run: the first task has finished.
    Finish,
    /// Give up: no task can ever be polled again.
    Stall,
}

/// A task to be woken once a point in time has come.
#[derive(Clone, Copy, Debug, PartialEq, Eq, Structural)]
pub struct Alarm {
    pub deadline: u128,
    pub task: usize,
}

/// The tasks of a runtime and its clock, as plain values.
#[verifier::ext_equal]
pub struct Schedule {
    /// The current time, in nanoseconds since the Unix epoch.
    pub now: u128,
    /// What each task is doing.
    pub tasks: Seq<Status>,
    /// The tasks that are ready, in the order of their turns.
    pub ready: Seq<usize>,
    /// The alarms that have not gone off, the earliest first.
    pub alarms: Seq<Alarm>,
}

/// The later of two points in time.
pub open spec fn later(a: u128, b: u128) -> u128 {
    if a <= b {
        b
    } else {
        a
    }
}

/// How many of `alarms`, the earliest first, go off by `time`.
pub open spec fn due(alarms: Seq<Alarm>, time: u128) -> nat
    decreases alarms.len(),
{
    if alarms.len() > 0 && alarms[0].deadline <= time {
        1 + due(alarms.drop_first(), time)
    } else {
        0
    }
}

impl Schedule {
    /// The schedule of a new runtime: it is the epoch, and the first task is ready.
    pub open spec fn start() -> Schedule {
        Schedule {
            now: 0,
            tasks: seq![Status::Ready],
            ready: seq![ROOT],
            alarms: Seq::empty(),
        }
    }

    pub open spec fn valid(self) -> bool {
        &&& 0 < self.tasks.len() <= usize::MAX
        &&& self.ready.no_duplicates()
        &&& forall|i: int|
            0 <= i < self.ready.len() ==> (#[trigger] self.ready[i]) < self.tasks.len()
                && self.tasks[self.ready[i] as int] == Status::Ready
        &&& forall|t: usize|
            t < self.tasks.len() && #[trigger] self.tasks[t as int] == Status::Ready
                ==> self.ready.contains(t)
        &&& forall|i: int|
            0 <= i < self.alarms.len() ==> (#[trigger] self.alarms[i]).task < self.tasks.len()
        &&& forall|i: int, j: int|
            0 <= i <= j < self.alarms.len() ==> self.alarms[i].deadline <= self.alarms[j].deadline
    }

    /// A new task is ready at once.
    pub open spec fn spawn(self) -> Schedule {
        Schedule {
            tasks: self.tasks.push(Status::Ready),
            ready: self.ready.push(self.tasks.len() as usize),
            ..self
        }
    }

    /// A suspended task that is woken takes its turn after the tasks that are ready; a task that
    /// is ready or finished is left alone.
    pub open spec fn wake(self, task: usize) -> Schedule {
        if self.tasks[task as int] == Status::Suspended {
            Schedule {
                tasks: self.tasks.update(task as int, Status::Ready),
                ready: self.ready.push(task),
                ..self
            }
        } else {
            self
        }
    }

    /// Wakes the task of each alarm in turn.
    pub open spec fn wake_all(self, alarms: Seq<Alarm>) -> Schedule
        decreases alarms.len(),
    {
        if alarms.len() == 0 {
            self
        } else {
            self.wake_all(alarms.drop_last()).wake(alarms.last().task)
        }
    }

    /// A task that has finished gives up its turn.
    pub open spec fn finish(self, task: usize) -> Schedule {
        Schedule {
            tasks: self.tasks.update(task as int, Status::Finished),
            ready: self.ready.remove_value(task),
            ..self
        }
    }

    /// An alarm goes off after those that were set for the same point in time.
    pub open spec fn arm(self, alarm: Alarm) -> Schedule {
        Schedule {
            alarms: self.alarms.insert(due(self.alarms, alarm.deadline) as int, alarm),
            ..self
        }
    }

    /// The alarms that have gone off by `time`, or by now if that is later.
    pub open spec fn fired(self, time: u128) -> Seq<Alarm> {
        self.alarms.take(due(self.alarms, later(self.now, time)) as int)
    }

    /// Time has moved to `time`, unless it was later already, and only the alarms to come are
    /// left.
    pub open spec fn tick(self, time: u128) -> Schedule {
        Schedule {
            now: later(self.now, time),
            alarms: self.alarms.skip(due(self.alarms, later(self.now, time)) as int),
            ..self
        }
    }

    /// Time moves to `time`, unless it is later already, and every alarm set for that point or
    /// before goes off.
    pub open spec fn advance(self, time: u128) -> Schedule {
        self.tick(time).wake_all(self.fired(time))
    }

    /// The first task that is ready takes its turn.
    pub open spec fn take_turn(self) -> Schedule {
        Schedule {
            tasks: self.tasks.update(self.ready[0] as int, Status::Suspended),
            ready: self.ready.drop_first(),
            ..self
        }
    }

    /// While no task is ready, time moves from alarm to alarm.
    pub open spec fn settle(self) -> Schedule
        decreases self.alarms.len(),
    {
        if self.ready.len() > 0 || self.alarms.len() == 0 {
            self
        } else {
            proof {
                lemma_due_bound(self.alarms, later(self.now, self.alarms[0].deadline));
                lemma_advance_frame(self, self.alarms[0].deadline);
            }
            self.advance(self.alarms[0].deadline).settle()
        }
    }

    /// The next step of the run, and the schedule while it is taken.
    pub open spec fn next(self) -> (Action, Schedule) {
        if self.tasks[ROOT as int] == Status::Finished {
            (Action::Finish, self)
        } else {
            let settled = self.settle();
            if settled.ready.len() > 0 {
                (Action::Poll(settled.ready[0]), settled.take_turn())
            } else {
                (Action::Stall, settled)
            }
        }
    }
}

/// No more alarms are due than there are, and the earliest is due if any is.
pub proof fn lemma_due_bound(alarms: Seq<Alarm>, time: u128)
    ensures
        due(alarms, time) <= alarms.len(),
        alarms.len() > 0 && alarms[0].deadline <= time ==> due(alarms, time) > 0,
    decreases alarms.len(),
{
    if alarms.len() > 0 {
        lemma_due_bound(alarms.drop_first(), time);
    }
}

/// Of alarms in order, exactly those counted as due are set for `time` or before.
proof fn lemma_due_splits(alarms: Seq<Alarm>, time: u128)
    requires
        forall|i: int, j: int|
            0 <= i <= j < alarms.len() ==> alarms[i].deadline <= alarms[j].deadline,
    ensures
        due(alarms, time) <= alarms.len(),
        forall|i: int| 0 <= i < due(alarms, time) ==> (#[trigger] alarms[i]).deadline <= time,
        forall|i: int|
            due(alarms, time) <= i < alarms.len() ==> (#[trigger] alarms[i]).deadline > time,
    decreases alarms.len(),
{
    if alarms.len() > 0 && alarms[0].deadline <= time {
        let rest = alarms.drop_first();
        lemma_due_splits(rest, time);
        assert forall|i: int| 0 <= i < due(alarms, time) implies (#[trigger] alarms[i]).deadline
            <= time by {
            if i > 0 {
                assert(rest[i - 1] == alarms[i]);
            }
        }
        assert forall|i: int| due(alarms, time) <= i < alarms.len() implies (
        #[trigger] alarms[i]).deadline > time by {
            assert(rest[i - 1] == alarms[i]);
        }
    }
}

proof fn lemma_wake_all_frame(s: Schedule, alarms: Seq<Alarm>)
    ensures
        s.wake_all(alarms).now == s.now,
        s.wake_all(alarms).alarms == s.alarms,
    decreases alarms.len(),
{
    if alarms.len() > 0 {
        lemma_wake_all_frame(s, alarms.drop_last());
    }
}

/// Moving time leaves just the alarms to come.
pub proof fn lemma_advance_frame(s: Schedule, time: u128)
    ensures
        s.advance(time).now == later(s.now, time),
        s.advance(time).alarms == s.alarms.skip(due(s.alarms, later(s.now, time)) as int),
{
    lemma_wake_all_frame(s.tick(time), s.fired(time));
}

proof fn lemma_spawn_valid(s: Schedule)
    requires
        s.valid(),
        s.tasks.len() < usize::MAX,
    ensures
        s.spawn().valid(),
{
    let t = s.spawn();
    let new = s.tasks.len() as usize;
    assert forall|k: usize|
        k < t.tasks.len() && #[trigger] t.tasks[k as int] == Status::Ready implies t.ready.contains(
        k,
    ) by {
        if k == new {
            assert(t.ready[s.ready.len() as int] == k);
        } else {
            assert(s.tasks[k as int] == Status::Ready);
            let i = choose|i: int| 0 <= i < s.ready.len() && s.ready[i] == k;
            assert(t.ready[i] == k);
        }
    }
}

proof fn lemma_wake_valid(s: Schedule, task: usize)
    requires
        s.valid(),
        task < s.tasks.len(),
    ensures
        s.wake(task).valid(),
{
    let t = s.wake(task);
    if s.tasks[task as int] == Status::Suspended {
        assert forall|k: usize|
            k < t.tasks.len() && #[trigger] t.tasks[k as int]
                == Status::Ready implies t.ready.contains(k) by {
            if k == task {
                assert(t.ready[s.ready.len() as int] == k);
            } else {
                assert(s.tasks[k as int] == Status::Ready);
                let i = choose|i: int| 0 <= i < s.ready.len() && s.ready[i] == k;
                assert(t.ready[i] == k);
            }
        }
    }
}

proof fn lemma_wake_all_valid(s: Schedule, alarms: Seq<Alarm>)
    requires
        s.valid(),
        forall|i: int| 0 <= i < alarms.len() ==> (#[trigger] alarms[i]).task < s.tasks.len(),
    ensures
        s.wake_all(alarms).valid(),
        s.wake_all(alarms).tasks.len() == s.tasks.len(),
    decreases alarms.len(),
{
    if alarms.len() > 0 {
        let before = alarms.drop_last();
        assert forall|i: int| 0 <= i < before.len() implies (#[trigger] before[i]).task
            < s.tasks.len() by {
            assert(alarms[i] == before[i]);
        }
        lemma_wake_all_valid(s, before);
        lemma_wake_valid(s.wake_all(before), alarms.last().task);
    }
}

proof fn lemma_remove_value(ready: Seq<usize>, task: usize, at: int)
    requires
        0 <= at < ready.len(),
        ready[at] == task,
        ready.no_duplicates(),
    ensures
        ready.remove_value(task) == ready.remove(at),
{
    assert(ready.contains(task));
    ready.index_of_first_ensures(task);
}

proof fn lemma_remove_absent(ready: Seq<usize>, task: usize)
    requires
        !ready.contains(task),
    ensures
        ready.remove_value(task) == ready,
{
    ready.index_of_first_ensures(task);
}

proof fn lemma_finish_valid(s: Schedule, task: usize)
    requires
        s.valid(),
        task < s.tasks.len(),
    ensures
        s.finish(task).valid(),
{
    let t = s.finish(task);
    if s.ready.contains(task) {
        let at = choose|i: int| 0 <= i < s.ready.len() && s.ready[i] == task;
        lemma_remove_value(s.ready, task, at);
        assert forall|k: usize|
            k < t.tasks.len() && #[trigger] t.tasks[k as int]
                == Status::Ready implies t.ready.contains(k) by {
            assert(s.tasks[k as int] == Status::Ready);
            let i = choose|i: int| 0 <= i < s.ready.len() && s.ready[i] == k;
            if i < at {
                assert(t.ready[i] == k);
            } else {
                assert(t.ready[i - 1] == k);
            }
        }
    } else {
        lemma_remove_absent(s.ready, task);
        assert forall|k: usize|
            k < t.tasks.len() && #[trigger] t.tasks[k as int]
                == Status::Ready implies t.ready.contains(k) by {
            assert(s.tasks[k as int] == Status::Ready);
        }
    }
}

proof fn lemma_arm_valid(s: Schedule, alarm: Alarm)
    requires
        s.valid(),
        alarm.task < s.tasks.len(),
    ensures
        s.arm(alarm).valid(),
{
    lemma_due_splits(s.alarms, alarm.deadline);
}

proof fn lemma_advance_valid(s: Schedule, time: u128)
    requires
        s.valid(),
    ensures
        s.tick(time).valid(),
        s.advance(time).valid(),
{
    let count = due(s.alarms, later(s.now, time)) as int;
    lemma_due_splits(s.alarms, later(s.now, time));
    let calm = s.tick(time);
    assert forall|i: int| 0 <= i < calm.alarms.len() implies (#[trigger] calm.alarms[i]).task
        < calm.tasks.len() by {
        assert(calm.alarms[i] == s.alarms[i + count]);
    }
    assert forall|k: usize|
        k < calm.tasks.len() && #[trigger] calm.tasks[k as int]
            == Status::Ready implies calm.ready.contains(k) by {
        assert(s.tasks[k as int] == Status::Ready);
    }
    assert(calm.valid());
    lemma_wake_all_valid(calm, s.fired(time));
}

proof fn lemma_poll_valid(s: Schedule)
    requires
        s.valid(),
    ensures
        s.ready.len() > 0 ==> s.take_turn().valid(),
{
    if s.ready.len() > 0 {
        let t = s.take_turn();
        assert forall|i: int| 0 <= i < t.ready.len() implies (#[trigger] t.ready[i])
            < t.tasks.len() && t.tasks[t.ready[i] as int] == Status::Ready by {
            assert(t.ready[i] == s.ready[i + 1]);
            assert(s.ready[i + 1] != s.ready[0]);
        }
        assert forall|k: usize|
            k < t.tasks.len() && #[trigger] t.tasks[k as int]
                == Status::Ready implies t.ready.contains(k) by {
            assert(s.tasks[k as int] == Status::Ready);
            let i = choose|i: int| 0 <= i < s.ready.len() && s.ready[i] == k;
            assert(t.ready[i - 1] == k);
        }
    }
}

/// The tasks of a runtime and its clock.
pub struct Scheduler {
    now: u128,
    tasks: Vec<Status>,
    ready: VecDeque<usize>,
    alarms: Vec<Alarm>,
}

impl View for Scheduler {
    type V = Schedule;

    closed spec fn view(&self) -> Schedule {
        Schedule {
            now: self.now,
            tasks: self.tasks@,
            ready: self.ready@,
            alarms: self.alarms@,
        }
    }
}

impl Scheduler {
    /// A scheduler at the epoch, with its first task ready.
    pub fn new() -> (scheduler: Self)
        ensures
            scheduler@ == Schedule::start(),
            scheduler@.valid(),
    {
        let mut tasks: Vec<Status> = Vec::new();
        tasks.push(Status::Ready);
        let mut ready: VecDeque<usize> = VecDeque::new();
        ready.push_back(ROOT);
        let scheduler = Scheduler { now: 0, tasks, ready, alarms: Vec::new() };
        assert(scheduler@ =~= Schedule::start());
        assert(scheduler@.ready[0] == 0);
        scheduler
    }

    /// The current time, in nanoseconds since the Unix epoch.
    pub fn now(&self) -> (now: u128)
        ensures
            now == self@.now,
    {
        self.now
    }

    /// How many tasks there have been.
    pub fn task_count(&self) -> (count: usize)
        ensures
            count == self@.tasks.len(),
    {
        self.tasks.len()
    }

    /// Adds a task, which is ready at once, and returns its number.
    pub fn spawn(&mut self) -> (task: usize)
        requires
            old(self)@.valid(),
        ensures
            final(self)@ == old(self)@.spawn(),
            final(self)@.valid(),
            task == old(self)@.tasks.len(),
    {
        let task: usize = self.tasks.len();
        self.tasks.push(Status::Ready);
        self.ready.push_back(task);
        proof {
            assert(self.tasks.len() == task + 1);
            lemma_spawn_valid(old(self)@);
        }
        task
    }

    /// Lets a task take its turn after the tasks that are ready, if it was suspended.
    pub fn wake(&mut self, task: usize)
        requires
            old(self)@.valid(),
            task < old(self)@.tasks.len(),
        ensures
            final(self)@ == old(self)@.wake(task),
            final(self)@.valid(),
    {
        proof {
            lemma_wake_valid(self@, task);
        }
        if self.tasks[task] == Status::Suspended {
            self.tasks.set(task, Status::Ready);
            self.ready.push_back(task);
        }
    }

    /// Ends a task.
    pub fn finish(&mut self, task: usize)
        requires
            old(self)@.valid(),
            task < old(self)@.tasks.len(),
        ensures
            final(self)@ == old(self)@.finish(task),
            final(self)@.valid(),
    {
        proof {
            lemma_finish_valid(self@, task);
        }
        if self.tasks[task] == Status::Ready {
            let len: usize = self.ready.len();
            let mut i: usize = 0;
            while self.ready[i] != task
                invariant
                    i < len == self.ready@.len(),
                    self.ready@.contains(task),
                    forall|j: int| 0 <= j < i ==> self.ready@[j] != task,
                    *self == *old(self),
                decreases self.ready@.len() - i,
            {
                assert(exists|j: int| i < j < len && self.ready@[j] == task);
                i += 1;
            }
            proof {
                lemma_remove_value(self.ready@, task, i as int);
            }
            self.ready.remove(i);
        } else {
            proof {
                lemma_remove_absent(self.ready@, task);
            }
        }
        self.tasks.set(task, Status::Finished);
    }

    /// Sets an alarm.
    pub fn arm(&mut self, alarm: Alarm)
        requires
            old(self)@.valid(),
            alarm.task < old(self)@.tasks.len(),
        ensures
            final(self)@ == old(self)@.arm(alarm),
            final(self)@.valid(),
    {
        proof {
            lemma_arm_valid(self@, alarm);
        }
        let at = self.count_due(alarm.deadline);
        self.alarms.insert(at, alarm);
    }

    /// How many alarms go off by `time`.
    fn count_due(&self, time: u128) -> (count: usize)
        requires
            self@.valid(),
        ensures
            count == due(self@.alarms, time),
            count <= self@.alarms.len(),
    {
        let mut count: usize = 0;
        assert(self.alarms@.skip(0) =~= self.alarms@);
        while count < self.alarms.len() && self.alarms[count].deadline <= time
            invariant
                count <= self.alarms@.len(),
                due(self.alarms@, time) == count + due(self.alarms@.skip(count as int), time),
            decreases self.alarms@.len() - count,
        {
            assert(self.alarms@.skip(count as int).drop_first() =~= self.alarms@.skip(count + 1));
            count += 1;
        }
        count
    }

    /// Moves time to `time`, unless it is later already, and lets alarms go off.
    pub fn advance(&mut self, time: u128)
        requires
            old(self)@.valid(),
        ensures
            final(self)@ == old(self)@.advance(time),
            final(self)@.valid(),
    {
        proof {
            lemma_advance_valid(self@, time);
        }
        if self.now < time {
            self.now = time;
        }
        let count = self.count_due(self.now);
        let rest = self.alarms.split_off(count);
        let mut fired: Vec<Alarm> = rest;
        std::mem::swap(&mut self.alarms, &mut fired);
        let ghost calm = self@;
        let mut i: usize = 0;
        while i < fired.len()
            invariant
                i <= fired@.len(),
                self@ == calm.wake_all(fired@.take(i as int)),
                calm.valid(),
                forall|j: int| 0 <= j < fired@.len() ==> (#[trigger] fired@[j]).task < calm.tasks.len(),
            decreases fired@.len() - i,
        {
            proof {
                lemma_wake_all_valid(calm, fired@.take(i as int));
                assert(fired@.take(i + 1).drop_last() =~= fired@.take(i as int));
            }
            let alarm = fired[i];
            self.wake(alarm.task);
            i += 1;
        }
        assert(fired@.take(i as int) =~= fired@);
    }

    /// Decides on the next step.
    pub fn next(&mut self) -> (action: Action)
        requires
            old(self)@.valid(),
        ensures
            (action, final(self)@) == old(self)@.next(),
            final(self)@.valid(),
    {
        if self.tasks[ROOT] == Status::Finished {
            return Action::Finish;
        }
        while self.ready.len() == 0 && self.alarms.len() > 0
            invariant
                self@.valid(),
                self@.settle() == old(self)@.settle(),
            decreases self@.alarms.len(),
        {
            let earliest = self.alarms[0].deadline;
            proof {
                lemma_due_bound(self@.alarms, later(self@.now, earliest));
                lemma_advance_frame(self@, earliest);
            }
            self.advance(earliest);
        }
        proof {
            lemma_poll_valid(self@);
        }
        match self.ready.pop_front() {
            Some(task) => {
                self.tasks.set(task, Status::Suspended);
                Action::Poll(task)
            },
            None => Action::Stall,
        }
    }
}

/// Once the first task has finished the run ends, whatever the other tasks are doing.
pub proof fn law_finished_root_ends_run(s: Schedule)
    requires
        s.valid(),
        s.tasks[ROOT as int] == Status::Finished,
    ensures
        s.next() == (Action::Finish, s),
{
}

/// Tasks are polled in the order in which they became ready, and no time passes while one is
/// ready.
pub proof fn law_turns_follow_the_queue(s: Schedule)
    requires
        s.valid(),
        s.tasks[ROOT as int] != Status::Finished,
        s.ready.len() > 0,
    ensures
        s.next() == (Action::Poll(s.ready[0]), s.take_turn()),
        s.take_turn().now == s.now,
        s.take_turn().ready == s.ready.drop_first(),
{
}

/// A spawned task starts without waiting for anything but the tasks that are already ready.
pub proof fn law_spawned_task_starts_at_once(s: Schedule)
    requires
        s.valid(),
        s.tasks.len() < usize::MAX,
        s.tasks[ROOT as int] != Status::Finished,
    ensures
        s.spawn().ready == s.ready.push(s.tasks.len() as usize),
        s.ready.len() == 0 ==> s.spawn().next().0 == Action::Poll(s.tasks.len() as usize),
        s.spawn().next().1.now == s.now,
{
    assert(s.spawn().settle() == s.spawn());
}

/// Nothing moves time back.
pub proof fn law_time_never_goes_back(s: Schedule, task: usize, alarm: Alarm, time: u128)
    requires
        s.valid(),
    ensures
        s.spawn().now == s.now,
        s.wake(task).now == s.now,
        s.finish(task).now == s.now,
        s.arm(alarm).now == s.now,
        s.advance(time).now >= s.now,
        s.next().1.now >= s.now,
{
    lemma_advance_frame(s, time);
    lemma_settle(s);
}

/// A suspended task sleeps on until one of its alarms goes off.
pub proof fn law_no_task_wakes_early(s: Schedule, task: usize, time: u128)
    requires
        s.valid(),
        task < s.tasks.len(),
        s.tasks[task as int] == Status::Suspended,
        forall|i: int|
            0 <= i < s.alarms.len() && (#[trigger] s.alarms[i]).task == task ==> s.alarms[i].deadline
                > later(s.now, time),
    ensures
        s.advance(time).tasks[task as int] == Status::Suspended,
{
    lemma_due_splits(s.alarms, later(s.now, time));
    lemma_advance_valid(s, time);
    assert forall|i: int| 0 <= i < s.fired(time).len() implies (#[trigger] s.fired(time)[i]).task
        != task by {
        assert(s.fired(time)[i] == s.alarms[i]);
    }
    lemma_wake_all_statuses(s.tick(time), s.fired(time), task);
}

/// A suspended task is polled next only if one of its alarms was set for the point in time that
/// has come, or before.
pub proof fn law_polled_sleeper_was_due(s: Schedule, task: usize)
    requires
        s.valid(),
        task < s.tasks.len(),
        s.tasks[task as int] == Status::Suspended,
        s.next().0 == Action::Poll(task),
    ensures
        exists|i: int|
            0 <= i < s.alarms.len() && (#[trigger] s.alarms[i]).task == task && s.alarms[i].deadline
                <= s.next().1.now,
{
    lemma_settle(s);
    lemma_settle_wakes_when_due(s, task);
    assert(s.settle().tasks[s.settle().ready[0] as int] == Status::Ready);
}

/// Settling wakes a suspended task only once one of its alarms is due.
proof fn lemma_settle_wakes_when_due(s: Schedule, task: usize)
    requires
        s.valid(),
        task < s.tasks.len(),
        s.tasks[task as int] == Status::Suspended,
    ensures
        s.settle().tasks[task as int] == Status::Suspended || exists|i: int|
            0 <= i < s.alarms.len() && (#[trigger] s.alarms[i]).task == task && s.alarms[i].deadline
                <= s.settle().now,
    decreases s.alarms.len(),
{
    if s.ready.len() == 0 && s.alarms.len() > 0 {
        let time = s.alarms[0].deadline;
        let next = s.advance(time);
        let count = due(s.alarms, later(s.now, time)) as int;
        lemma_due_bound(s.alarms, later(s.now, time));
        lemma_due_splits(s.alarms, later(s.now, time));
        lemma_advance_frame(s, time);
        lemma_advance_valid(s, time);
        assert forall|i: int| 0 <= i < s.fired(time).len() implies (
        #[trigger] s.fired(time)[i]).task < s.tasks.len() by {
            assert(s.fired(time)[i] == s.alarms[i]);
        }
        lemma_wake_all_statuses(s.tick(time), s.fired(time), task);
        lemma_settle(next);
        if next.tasks[task as int] == Status::Suspended {
            lemma_settle_wakes_when_due(next, task);
            if next.settle().tasks[task as int] != Status::Suspended {
                let i = choose|i: int|
                    0 <= i < next.alarms.len() && (#[trigger] next.alarms[i]).task == task
                        && next.alarms[i].deadline <= next.settle().now;
                assert(next.alarms[i] == s.alarms[i + count]);
            }
        } else {
            let i = choose|i: int|
                0 <= i < s.fired(time).len() && (#[trigger] s.fired(time)[i]).task == task;
            assert(s.fired(time)[i] == s.alarms[i]);
        }
    }
}

/// A suspended task is ready once the time of one of its alarms has come.
pub proof fn law_alarm_wakes_its_task(s: Schedule, at: int, time: u128)
    requires
        s.valid(),
        0 <= at < s.alarms.len(),
        s.alarms[at].deadline <= later(s.now, time),
        s.tasks[s.alarms[at].task as int] == Status::Suspended,
    ensures
        s.advance(time).tasks[s.alarms[at].task as int] == Status::Ready,
{
    lemma_due_splits(s.alarms, later(s.now, time));
    lemma_advance_valid(s, time);
    assert(s.fired(time)[at] == s.alarms[at]);
    lemma_wake_all_statuses(s.tick(time), s.fired(time), s.alarms[at].task);
}

/// When no task is ready, time moves to the earliest alarm and no further, and the task that it
/// wakes is polled.
pub proof fn law_time_moves_to_the_earliest_alarm(s: Schedule)
    requires
        s.valid(),
        s.tasks[ROOT as int] != Status::Finished,
        s.ready.len() == 0,
        s.alarms.len() > 0,
        s.tasks[s.alarms[0].task as int] == Status::Suspended,
    ensures
        s.next().0 == Action::Poll(s.alarms[0].task),
        s.next().1.now == later(s.now, s.alarms[0].deadline),
{
    let time = s.alarms[0].deadline;
    let fired = s.fired(time);
    lemma_due_bound(s.alarms, later(s.now, time));
    lemma_advance_valid(s, time);
    lemma_advance_frame(s, time);
    lemma_due_splits(s.alarms, later(s.now, time));
    assert(fired[0] == s.alarms[0]);
    lemma_first_woken(s.tick(time), fired);
    assert(s.settle() == s.advance(time).settle());
}

/// A task that has finished is never polled again.
pub proof fn law_finished_task_is_never_polled(s: Schedule)
    requires
        s.valid(),
    ensures
        match s.next().0 {
            Action::Poll(task) => task < s.tasks.len() && s.tasks[task as int] != Status::Finished,
            _ => true,
        },
{
    lemma_settle(s);
}

/// A task that has finished stays so, whatever is done to any task.
pub proof fn law_finished_task_stays_finished(
    s: Schedule,
    task: usize,
    other: usize,
    alarm: Alarm,
    time: u128,
)
    requires
        s.valid(),
        task < s.tasks.len(),
        other < s.tasks.len(),
        s.tasks[task as int] == Status::Finished,
    ensures
        s.spawn().tasks[task as int] == Status::Finished,
        s.wake(other).tasks[task as int] == Status::Finished,
        s.finish(other).tasks[task as int] == Status::Finished,
        s.arm(alarm).tasks[task as int] == Status::Finished,
        s.advance(time).tasks[task as int] == Status::Finished,
        s.next().1.tasks[task as int] == Status::Finished,
{
    lemma_due_splits(s.alarms, later(s.now, time));
    lemma_advance_valid(s, time);
    assert forall|i: int| 0 <= i < s.fired(time).len() implies (#[trigger] s.fired(time)[i]).task
        < s.tasks.len() by {
        assert(s.fired(time)[i] == s.alarms[i]);
    }
    lemma_wake_all_statuses(s.tick(time), s.fired(time), task);
    lemma_settle(s);
}

/// A run is given up only when no task is ready and no alarm is left, and it then stays given up.
pub proof fn law_stall_is_for_good(s: Schedule)
    requires
        s.valid(),
        s.next().0 == Action::Stall,
    ensures
        s.next().1.ready.len() == 0,
        s.next().1.alarms.len() == 0,
        s.next().1.next() == s.next(),
{
    lemma_settle(s);
    lemma_settle_reaches_the_end(s);
    assert(s.settle().tasks[ROOT as int] != Status::Finished);
}

/// Settling goes on until a task is ready or no alarm is left.
proof fn lemma_settle_reaches_the_end(s: Schedule)
    ensures
        s.settle().ready.len() > 0 || s.settle().alarms.len() == 0,
    decreases s.alarms.len(),
{
    if s.ready.len() == 0 && s.alarms.len() > 0 {
        lemma_due_bound(s.alarms, later(s.now, s.alarms[0].deadline));
        lemma_advance_frame(s, s.alarms[0].deadline);
        lemma_settle_reaches_the_end(s.advance(s.alarms[0].deadline));
    }
}

/// A new runtime is at the epoch, and has one task, which is polled first.
pub proof fn law_run_starts_with_the_root()
    ensures
        ({
            let s = Schedule::start();
            &&& s.valid()
            &&& s.now == 0
            &&& s.tasks == seq![Status::Ready]
            &&& s.ready == seq![0usize]
            &&& s.alarms.len() == 0
            &&& s.next().0 == Action::Poll(0)
            &&& s.next().1.tasks == seq![Status::Suspended]
            &&& s.next().1.ready.len() == 0
            &&& s.next().1.now == 0
        }),
{
    let s = Schedule::start();
    assert(s.ready[0] == 0);
    assert(s.next().1.tasks =~= seq![Status::Suspended]);
}

/// Spawning adds a task, which is the last to be polled of those that are ready, and changes
/// neither another task, nor an alarm, nor the time.
pub proof fn law_spawning_only_adds_a_task(s: Schedule)
    requires
        s.valid(),
        s.tasks.len() < usize::MAX,
    ensures
        ({
            let t = s.spawn();
            &&& t.valid()
            &&& t.now == s.now
            &&& t.alarms == s.alarms
            &&& t.tasks.len() == s.tasks.len() + 1
            &&& t.tasks[s.tasks.len() as int] == Status::Ready
            &&& forall|k: int| 0 <= k < s.tasks.len() ==> #[trigger] t.tasks[k] == s.tasks[k]
            &&& t.ready.len() == s.ready.len() + 1
            &&& t.ready[s.ready.len() as int] == s.tasks.len()
            &&& forall|i: int| 0 <= i < s.ready.len() ==> #[trigger] t.ready[i] == s.ready[i]
        }),
{
    lemma_spawn_valid(s);
}

/// Waking a task makes it ready, as the last of those that are, if it was suspended; nothing else
/// changes, and nothing at all if it was ready or finished.
pub proof fn law_waking_changes_one_task(s: Schedule, task: usize)
    requires
        s.valid(),
        task < s.tasks.len(),
    ensures
        ({
            let t = s.wake(task);
            &&& t.valid()
            &&& t.now == s.now
            &&& t.alarms == s.alarms
            &&& t.tasks.len() == s.tasks.len()
            &&& forall|k: int|
                0 <= k < s.tasks.len() && k != task ==> #[trigger] t.tasks[k] == s.tasks[k]
            &&& s.tasks[task as int] == Status::Suspended ==> t.tasks[task as int] == Status::Ready
                && t.ready == s.ready.push(task)
            &&& s.tasks[task as int] != Status::Suspended ==> t == s
        }),
{
    lemma_wake_valid(s, task);
}

/// Finishing a task changes that task only: the others keep their turns and their alarms.
pub proof fn law_finishing_changes_one_task(s: Schedule, task: usize)
    requires
        s.valid(),
        task < s.tasks.len(),
    ensures
        ({
            let t = s.finish(task);
            &&& t.valid()
            &&& t.now == s.now
            &&& t.alarms == s.alarms
            &&& t.tasks.len() == s.tasks.len()
            &&& t.tasks[task as int] == Status::Finished
            &&& forall|k: int|
                0 <= k < s.tasks.len() && k != task ==> #[trigger] t.tasks[k] == s.tasks[k]
            &&& forall|i: int|
                0 <= i < s.ready.len() && #[trigger] s.ready[i] == task ==> t.ready == s.ready.take(
                    i,
                ) + s.ready.skip(i + 1)
            &&& !s.ready.contains(task) ==> t.ready == s.ready
        }),
{
    let t = s.finish(task);
    lemma_finish_valid(s, task);
    assert forall|i: int| 0 <= i < s.ready.len() && #[trigger] s.ready[i] == task implies t.ready
        == s.ready.take(i) + s.ready.skip(i + 1) by {
        lemma_remove_value(s.ready, task, i);
        assert(s.ready.remove(i) =~= s.ready.take(i) + s.ready.skip(i + 1));
    }
    if !s.ready.contains(task) {
        lemma_remove_absent(s.ready, task);
    }
}

/// Setting an alarm only adds it: before the alarms set for later, after those set for the same
/// point in time or before.
pub proof fn law_setting_an_alarm_only_adds_it(s: Schedule, alarm: Alarm)
    requires
        s.valid(),
        alarm.task < s.tasks.len(),
    ensures
        s.arm(alarm).valid(),
        s.arm(alarm).now == s.now,
        s.arm(alarm).tasks == s.tasks,
        s.arm(alarm).ready == s.ready,
        exists|at: int|
            {
                &&& 0 <= at <= s.alarms.len()
                &&& s.arm(alarm).alarms == #[trigger] s.alarms.insert(at, alarm)
                &&& forall|i: int| 0 <= i < at ==> (#[trigger] s.alarms[i]).deadline <= alarm.deadline
                &&& forall|i: int|
                    at <= i < s.alarms.len() ==> (#[trigger] s.alarms[i]).deadline > alarm.deadline
            },
{
    lemma_arm_valid(s, alarm);
    lemma_due_splits(s.alarms, alarm.deadline);
    let at = due(s.alarms, alarm.deadline) as int;
    assert(s.arm(alarm).alarms == s.alarms.insert(at, alarm));
}

/// When time moves to `time`, unless it is later already, exactly the alarms set for that point or
/// before go off: a suspended task gets ready if and only if it has one of them, the tasks that
/// were ready keep their turns before those that get ready, and these take theirs in the order of
/// their alarms.
pub proof fn law_moving_time_sets_off_what_is_due(s: Schedule, time: u128)
    requires
        s.valid(),
    ensures
        ({
            let t = s.advance(time);
            let now = if s.now <= time { time } else { s.now };
            &&& t.valid()
            &&& t.now == now
            &&& exists|c: int|
                {
                    &&& 0 <= c <= s.alarms.len()
                    &&& t.alarms == #[trigger] s.alarms.skip(c)
                    &&& forall|i: int| 0 <= i < c ==> (#[trigger] s.alarms[i]).deadline <= now
                    &&& forall|i: int|
                        c <= i < s.alarms.len() ==> (#[trigger] s.alarms[i]).deadline > now
                }
            &&& t.tasks.len() == s.tasks.len()
            &&& forall|k: int|
                0 <= k < s.tasks.len() ==> #[trigger] t.tasks[k] == (if s.tasks[k]
                    == Status::Suspended && exists|i: int|
                    0 <= i < s.alarms.len() && (#[trigger] s.alarms[i]).task == k
                        && s.alarms[i].deadline <= now {
                    Status::Ready
                } else {
                    s.tasks[k]
                })
            &&& s.ready.is_prefix_of(t.ready)
            &&& forall|i: int, j: int|
                s.ready.len() <= i < j < t.ready.len() ==> exists|a: int|
                    {
                        &&& 0 <= a < s.alarms.len()
                        &&& (#[trigger] s.alarms[a]).task == #[trigger] t.ready[i]
                        &&& forall|b: int|
                            0 <= b <= a ==> (#[trigger] s.alarms[b]).task != #[trigger] t.ready[j]
                    }
        }),
{
    let t = s.advance(time);
    let now = later(s.now, time);
    let c = due(s.alarms, now) as int;
    let fired = s.fired(time);
    lemma_due_splits(s.alarms, now);
    lemma_advance_valid(s, time);
    lemma_advance_frame(s, time);
    assert(t.alarms == s.alarms.skip(c));
    assert forall|i: int| 0 <= i < fired.len() implies (#[trigger] fired[i]).task
        < s.tasks.len() by {
        assert(fired[i] == s.alarms[i]);
    }
    lemma_wake_all_valid(s.tick(time), fired);
    assert forall|k: int| 0 <= k < s.tasks.len() implies #[trigger] t.tasks[k] == (if s.tasks[k]
        == Status::Suspended && exists|i: int|
        0 <= i < s.alarms.len() && (#[trigger] s.alarms[i]).task == k && s.alarms[i].deadline
            <= now {
        Status::Ready
    } else {
        s.tasks[k]
    }) by {
        lemma_wake_all_statuses(s.tick(time), fired, k as usize);
        if exists|i: int|
            0 <= i < s.alarms.len() && (#[trigger] s.alarms[i]).task == k && s.alarms[i].deadline
                <= now {
            let i = choose|i: int|
                0 <= i < s.alarms.len() && (#[trigger] s.alarms[i]).task == k
                    && s.alarms[i].deadline <= now;
            assert(fired[i] == s.alarms[i]);
        }
        if exists|i: int| 0 <= i < fired.len() && (#[trigger] fired[i]).task == k {
            let i = choose|i: int| 0 <= i < fired.len() && (#[trigger] fired[i]).task == k;
            assert(fired[i] == s.alarms[i]);
        }
    }
    lemma_wake_all_order(s.tick(time), fired);
    assert forall|i: int, j: int| s.ready.len() <= i < j < t.ready.len() implies exists|a: int|
        {
            &&& 0 <= a < s.alarms.len()
            &&& (#[trigger] s.alarms[a]).task == #[trigger] t.ready[i]
            &&& forall|b: int|
                0 <= b <= a ==> (#[trigger] s.alarms[b]).task != #[trigger] t.ready[j]
        } by {
        let a = choose|a: int|
            {
                &&& 0 <= a < fired.len()
                &&& (#[trigger] fired[a]).task == t.ready[i]
                &&& forall|b: int| 0 <= b <= a ==> (#[trigger] fired[b]).task != t.ready[j]
            };
        assert(fired[a] == s.alarms[a]);
        assert forall|b: int| 0 <= b <= a implies (#[trigger] s.alarms[b]).task != t.ready[j] by {
            assert(fired[b] == s.alarms[b]);
        }
    }
}

/// A turn changes one task: the first that is ready is polled and is suspended meanwhile; the
/// others keep their turns and their alarms, and no time passes.
pub proof fn law_turn_changes_one_task(s: Schedule)
    requires
        s.valid(),
        s.tasks[0] != Status::Finished,
        s.ready.len() > 0,
    ensures
        ({
            let (action, t) = s.next();
            let task = s.ready[0];
            &&& action == Action::Poll(task)
            &&& t.valid()
            &&& t.now == s.now
            &&& t.alarms == s.alarms
            &&& t.ready == s.ready.skip(1)
            &&& t.tasks.len() == s.tasks.len()
            &&& t.tasks[task as int] == Status::Suspended
            &&& forall|k: int|
                0 <= k < s.tasks.len() && k != task ==> #[trigger] t.tasks[k] == s.tasks[k]
        }),
{
    lemma_poll_valid(s);
    assert(s.settle() == s);
    assert(s.ready.drop_first() =~= s.ready.skip(1));
}

/// A schedule after `n` steps, when the tasks that are polled do nothing.
pub open spec fn after_steps(s: Schedule, n: nat) -> Schedule
    decreases n,
{
    if n == 0 {
        s
    } else {
        after_steps(s, (n - 1) as nat).next().1
    }
}

/// Every task that is ready is polled, one after the other, before any time passes.
pub proof fn law_every_ready_task_is_polled(s: Schedule, n: nat)
    requires
        s.valid(),
        s.tasks[0] != Status::Finished,
        n < s.ready.len(),
    ensures
        after_steps(s, n).next().0 == Action::Poll(s.ready[n as int]),
        after_steps(s, n).next().1.now == s.now,
        after_steps(s, n).next().1.alarms == s.alarms,
{
    lemma_steps_follow_the_queue(s, n);
    law_turn_changes_one_task(after_steps(s, n));
}

proof fn lemma_steps_follow_the_queue(s: Schedule, n: nat)
    requires
        s.valid(),
        s.tasks[0] != Status::Finished,
        n < s.ready.len(),
    ensures
        after_steps(s, n).valid(),
        after_steps(s, n).now == s.now,
        after_steps(s, n).alarms == s.alarms,
        after_steps(s, n).ready == s.ready.skip(n as int),
        after_steps(s, n).tasks[0] != Status::Finished,
    decreases n,
{
    if n == 0 {
        assert(s.ready.skip(0) =~= s.ready);
    } else {
        let m = (n - 1) as nat;
        lemma_steps_follow_the_queue(s, m);
        law_turn_changes_one_task(after_steps(s, m));
        assert(s.ready.skip(m as int).skip(1) =~= s.ready.skip(n as int));
    }
}

/// While no task is ready, time moves on to the first alarm of a suspended task, and no further:
/// that task is polled, and every other suspended task that has an alarm set for that point or
/// before gets ready. No alarm set for later is lost.
pub proof fn law_time_passes_to_the_first_sleeper(s: Schedule, at: int)
    requires
        s.valid(),
        s.tasks[0] != Status::Finished,
        s.ready.len() == 0,
        0 <= at < s.alarms.len(),
        s.tasks[s.alarms[at].task as int] == Status::Suspended,
        forall|b: int|
            0 <= b < at ==> s.tasks[(#[trigger] s.alarms[b]).task as int] != Status::Suspended,
    ensures
        ({
            let (action, t) = s.next();
            let task = s.alarms[at].task;
            let now = if s.now <= s.alarms[at].deadline { s.alarms[at].deadline } else { s.now };
            &&& action == Action::Poll(task)
            &&& t.valid()
            &&& t.now == now
            &&& exists|c: int|
                {
                    &&& at < c <= s.alarms.len()
                    &&& t.alarms == #[trigger] s.alarms.skip(c)
                    &&& forall|i: int| 0 <= i < c ==> (#[trigger] s.alarms[i]).deadline <= now
                    &&& forall|i: int|
                        c <= i < s.alarms.len() ==> (#[trigger] s.alarms[i]).deadline > now
                }
            &&& t.tasks.len() == s.tasks.len()
            &&& t.tasks[task as int] == Status::Suspended
            &&& forall|k: int|
                0 <= k < s.tasks.len() && k != task ==> #[trigger] t.tasks[k] == (if s.tasks[k]
                    == Status::Suspended && exists|i: int|
                    0 <= i < s.alarms.len() && (#[trigger] s.alarms[i]).task == k
                        && s.alarms[i].deadline <= now {
                    Status::Ready
                } else {
                    s.tasks[k]
                })
        }),
{
    lemma_settle_to_sleeper(s, at);
    lemma_settle(s);
    let f = s.settle();
    lemma_poll_valid(f);
    lemma_due_splits(s.alarms, f.now);
    let c = due(s.alarms, f.now) as int;
    assert(s.next().1.alarms == s.alarms.skip(c));
}

/// While no task is ready, taking the next step is moving time to the first alarm of a suspended
/// task, and then taking the next step.
pub proof fn law_waiting_is_moving_time(s: Schedule, at: int)
    requires
        s.valid(),
        s.tasks[0] != Status::Finished,
        s.ready.len() == 0,
        0 <= at < s.alarms.len(),
        s.tasks[s.alarms[at].task as int] == Status::Suspended,
        forall|b: int|
            0 <= b < at ==> s.tasks[(#[trigger] s.alarms[b]).task as int] != Status::Suspended,
    ensures
        s.next() == s.advance(s.alarms[at].deadline).next(),
{
    let time = s.alarms[at].deadline;
    lemma_settle_is_advance(s, at);
    lemma_settle_to_sleeper(s, at);
    assert(s.advance(time).settle() == s.advance(time));
    assert(s.advance(time).tasks[0] != Status::Finished);
}

proof fn lemma_settle_is_advance(s: Schedule, at: int)
    requires
        s.valid(),
        s.ready.len() == 0,
        0 <= at < s.alarms.len(),
        s.tasks[s.alarms[at].task as int] == Status::Suspended,
        forall|b: int|
            0 <= b < at ==> s.tasks[(#[trigger] s.alarms[b]).task as int] != Status::Suspended,
    ensures
        s.settle() == s.advance(s.alarms[at].deadline),
    decreases s.alarms.len(),
{
    let first = s.alarms[0].deadline;
    let time = s.alarms[at].deadline;
    let next = s.advance(first);
    let n1 = later(s.now, first);
    let now = later(s.now, time);
    let count = due(s.alarms, n1) as int;
    let c = due(s.alarms, now) as int;
    lemma_due_bound(s.alarms, n1);
    lemma_due_splits(s.alarms, n1);
    lemma_due_splits(s.alarms, now);
    lemma_advance_frame(s, first);
    lemma_settle_to_sleeper(s, at);
    assert(s.settle() == next.settle());
    if at < count {
        assert(s.alarms[0].deadline <= s.alarms[at].deadline);
        assert(now == n1);
        assert(next == s.advance(time));
        law_moving_time_sets_off_what_is_due(s, first);
        assert(next.tasks[s.alarms[at].task as int] == Status::Ready);
        assert(next.ready.contains(s.alarms[at].task));
        assert(next.settle() == next);
    } else {
        lemma_idle_advance(s, first);
        let rest = at - count;
        assert(next.alarms[rest] == s.alarms[at]);
        assert forall|b: int| 0 <= b < rest implies next.tasks[(
        #[trigger] next.alarms[b]).task as int] != Status::Suspended by {
            assert(next.alarms[b] == s.alarms[b + count]);
        }
        lemma_settle_is_advance(next, rest);
        lemma_due_splits(next.alarms, now);
        let d = due(next.alarms, now) as int;
        if count + d < c {
            assert(next.alarms[d] == s.alarms[count + d]);
        }
        if c < count + d {
            if c >= count {
                assert(next.alarms[c - count] == s.alarms[c]);
            }
        }
        assert(s.alarms.skip(count).skip(d) =~= s.alarms.skip(c));
        let idle = s.alarms.take(count);
        let late = next.alarms.take(d);
        assert(s.alarms.take(c) =~= idle + late);
        assert forall|i: int| 0 <= i < idle.len() implies s.tick(time).tasks[(
        #[trigger] idle[i]).task as int] != Status::Suspended by {
            assert(idle[i] == s.alarms[i]);
        }
        lemma_idle_wakes(s.tick(time), idle, late);
        assert(s.tick(time) =~= next.tick(time));
        assert(s.fired(time) == idle + late);
        assert(next.fired(time) == late);
    }
}

/// Waking tasks that are not suspended makes no difference.
proof fn lemma_idle_wakes(s: Schedule, idle: Seq<Alarm>, alarms: Seq<Alarm>)
    requires
        forall|i: int|
            0 <= i < idle.len() ==> s.tasks[(#[trigger] idle[i]).task as int] != Status::Suspended,
    ensures
        s.wake_all(idle + alarms) == s.wake_all(alarms),
    decreases idle.len() + alarms.len(),
{
    let all = idle + alarms;
    if alarms.len() > 0 {
        assert(all.drop_last() =~= idle + alarms.drop_last());
        assert(all.last() == alarms.last());
        lemma_idle_wakes(s, idle, alarms.drop_last());
    } else if idle.len() > 0 {
        let before = idle.drop_last();
        assert(all.drop_last() =~= before + alarms);
        assert(all.last() == idle[idle.len() - 1]);
        assert forall|i: int| 0 <= i < before.len() implies s.tasks[(
        #[trigger] before[i]).task as int] != Status::Suspended by {
            assert(before[i] == idle[i]);
        }
        lemma_idle_wakes(s, before, alarms);
        assert(s.wake_all(alarms) == s);
    } else {
        assert(all =~= alarms);
    }
}

/// If no task is ready and no suspended task has an alarm, the run stalls: no task could ever be
/// polled. No task is changed by it.
pub proof fn law_run_stalls_when_nobody_can_wake(s: Schedule)
    requires
        s.valid(),
        s.tasks[0] != Status::Finished,
        s.ready.len() == 0,
        forall|b: int|
            0 <= b < s.alarms.len() ==> s.tasks[(#[trigger] s.alarms[b]).task as int]
                != Status::Suspended,
    ensures
        s.next().0 == Action::Stall,
        s.next().1.tasks == s.tasks,
        s.next().1.ready.len() == 0,
        s.next().1.alarms.len() == 0,
    decreases s.alarms.len(),
{
    if s.alarms.len() > 0 {
        let time = s.alarms[0].deadline;
        let next = s.advance(time);
        lemma_idle_advance(s, time);
        lemma_due_bound(s.alarms, later(s.now, time));
        lemma_advance_frame(s, time);
        let count = due(s.alarms, later(s.now, time)) as int;
        assert forall|b: int| 0 <= b < next.alarms.len() implies next.tasks[(
        #[trigger] next.alarms[b]).task as int] != Status::Suspended by {
            assert(next.alarms[b] == s.alarms[b + count]);
        }
        law_run_stalls_when_nobody_can_wake(next);
        assert(s.settle() == next.settle());
    }
}

/// Moving time past alarms of tasks that are not suspended changes no task.
proof fn lemma_idle_advance(s: Schedule, time: u128)
    requires
        s.valid(),
        s.ready.len() == 0,
        forall|b: int|
            0 <= b < s.alarms.len() && (#[trigger] s.alarms[b]).deadline <= later(s.now, time)
                ==> s.tasks[s.alarms[b].task as int] != Status::Suspended,
    ensures
        s.advance(time).valid(),
        s.advance(time).tasks == s.tasks,
        s.advance(time).ready.len() == 0,
{
    let next = s.advance(time);
    law_moving_time_sets_off_what_is_due(s, time);
    assert(next.tasks =~= s.tasks);
    if next.ready.len() > 0 {
        assert(next.tasks[next.ready[0] as int] == Status::Ready);
        assert(s.tasks[next.ready[0] as int] == Status::Ready);
        assert(s.ready.contains(next.ready[0]));
    }
}

proof fn lemma_settle_to_sleeper(s: Schedule, at: int)
    requires
        s.valid(),
        s.ready.len() == 0,
        0 <= at < s.alarms.len(),
        s.tasks[s.alarms[at].task as int] == Status::Suspended,
        forall|b: int|
            0 <= b < at ==> s.tasks[(#[trigger] s.alarms[b]).task as int] != Status::Suspended,
    ensures
        ({
            let f = s.settle();
            let now = later(s.now, s.alarms[at].deadline);
            &&& f.now == now
            &&& f.ready.len() > 0
            &&& f.ready[0] == s.alarms[at].task
            &&& f.alarms == s.alarms.skip(due(s.alarms, now) as int)
            &&& f.tasks.len() == s.tasks.len()
            &&& forall|k: int|
                0 <= k < s.tasks.len() ==> #[trigger] f.tasks[k] == (if s.tasks[k]
                    == Status::Suspended && exists|i: int|
                    0 <= i < s.alarms.len() && (#[trigger] s.alarms[i]).task == k
                        && s.alarms[i].deadline <= now {
                    Status::Ready
                } else {
                    s.tasks[k]
                })
        }),
    decreases s.alarms.len(),
{
    let time = s.alarms[0].deadline;
    let next = s.advance(time);
    let n1 = later(s.now, time);
    let now = later(s.now, s.alarms[at].deadline);
    let count = due(s.alarms, n1) as int;
    lemma_due_bound(s.alarms, n1);
    lemma_due_splits(s.alarms, n1);
    lemma_due_splits(s.alarms, now);
    lemma_advance_frame(s, time);
    law_moving_time_sets_off_what_is_due(s, time);
    if at < count {
        assert(s.alarms[0].deadline <= s.alarms[at].deadline);
        assert(now == n1);
        let task = s.alarms[at].task;
        assert(next.tasks[task as int] == Status::Ready);
        assert(next.ready.contains(task));
        let j = choose|j: int| 0 <= j < next.ready.len() && next.ready[j] == task;
        if j > 0 {
            let x = next.ready[0];
            let a = choose|a: int|
                {
                    &&& 0 <= a < s.alarms.len()
                    &&& (#[trigger] s.alarms[a]).task == x
                    &&& forall|b: int| 0 <= b <= a ==> (#[trigger] s.alarms[b]).task != next.ready[j]
                };
            assert(s.alarms[a].task == x);
            assert(a < at);
            assert(s.tasks[x as int] != Status::Suspended);
            assert(next.tasks[x as int] == Status::Ready);
            assert(s.tasks[x as int] == Status::Ready);
            assert(s.ready.contains(x));
        }
        assert(s.settle() == next.settle());
        assert(next.settle() == next);
    } else {
        lemma_idle_advance(s, time);
        let rest = at - count;
        assert(next.alarms[rest] == s.alarms[at]);
        assert forall|b: int| 0 <= b < rest implies next.tasks[(
        #[trigger] next.alarms[b]).task as int] != Status::Suspended by {
            assert(next.alarms[b] == s.alarms[b + count]);
        }
        lemma_settle_to_sleeper(next, rest);
        let f = s.settle();
        assert(f == next.settle());
        assert(later(next.now, next.alarms[rest].deadline) == now);
        lemma_due_splits(next.alarms, now);
        let c1 = count + due(next.alarms, now) as int;
        let c2 = due(s.alarms, now) as int;
        if c1 < c2 {
            assert(next.alarms[c1 - count] == s.alarms[c1]);
        }
        if c2 < c1 {
            if c2 >= count {
                assert(next.alarms[c2 - count] == s.alarms[c2]);
            }
        }
        assert(s.alarms.skip(count).skip(c1 - count) =~= s.alarms.skip(c1));
        assert forall|k: int| 0 <= k < s.tasks.len() implies #[trigger] f.tasks[k] == (if s.tasks[k]
            == Status::Suspended && exists|i: int|
            0 <= i < s.alarms.len() && (#[trigger] s.alarms[i]).task == k && s.alarms[i].deadline
                <= now {
            Status::Ready
        } else {
            s.tasks[k]
        }) by {
            if s.tasks[k] == Status::Suspended {
                if exists|i: int|
                    0 <= i < s.alarms.len() && (#[trigger] s.alarms[i]).task == k
                        && s.alarms[i].deadline <= now {
                    let i = choose|i: int|
                        0 <= i < s.alarms.len() && (#[trigger] s.alarms[i]).task == k
                            && s.alarms[i].deadline <= now;
                    assert(i >= count);
                    assert(next.alarms[i - count] == s.alarms[i]);
                }
                if exists|i: int|
                    0 <= i < next.alarms.len() && (#[trigger] next.alarms[i]).task == k
                        && next.alarms[i].deadline <= now {
                    let i = choose|i: int|
                        0 <= i < next.alarms.len() && (#[trigger] next.alarms[i]).task == k
                            && next.alarms[i].deadline <= now;
                    assert(next.alarms[i] == s.alarms[i + count]);
                }
            }
        }
    }
}

/// Tasks that are woken take their turns after those that were ready, in the order of the alarms.
proof fn lemma_wake_all_order(s: Schedule, alarms: Seq<Alarm>)
    requires
        s.valid(),
        forall|i: int| 0 <= i < alarms.len() ==> (#[trigger] alarms[i]).task < s.tasks.len(),
    ensures
        s.ready.is_prefix_of(s.wake_all(alarms).ready),
        forall|i: int|
            s.ready.len() <= i < s.wake_all(alarms).ready.len() ==> exists|a: int|
                0 <= a < alarms.len() && (#[trigger] alarms[a]).task == #[trigger] s.wake_all(
                    alarms,
                ).ready[i],
        forall|i: int, j: int|
            s.ready.len() <= i < j < s.wake_all(alarms).ready.len() ==> exists|a: int|
                {
                    &&& 0 <= a < alarms.len()
                    &&& (#[trigger] alarms[a]).task == #[trigger] s.wake_all(alarms).ready[i]
                    &&& forall|b: int|
                        0 <= b <= a ==> (#[trigger] alarms[b]).task != #[trigger] s.wake_all(
                            alarms,
                        ).ready[j]
                },
    decreases alarms.len(),
{
    if alarms.len() == 0 {
        assert(s.ready =~= s.ready.subrange(0, s.ready.len() as int));
    } else {
        let before = alarms.drop_last();
        let last = alarms.last().task;
        assert forall|i: int| 0 <= i < before.len() implies (#[trigger] before[i]).task
            < s.tasks.len() by {
            assert(alarms[i] == before[i]);
        }
        lemma_wake_all_order(s, before);
        lemma_wake_all_valid(s, before);
        lemma_wake_all_statuses(s, before, last);
        let w = s.wake_all(before);
        let t = s.wake_all(alarms);
        assert(t == w.wake(last));
        let grown = w.tasks[last as int] == Status::Suspended;
        assert(alarms[alarms.len() - 1].task == last);
        assert(s.ready =~= t.ready.subrange(0, s.ready.len() as int)) by {
            assert(s.ready =~= w.ready.subrange(0, s.ready.len() as int));
            assert forall|i: int| 0 <= i < s.ready.len() implies s.ready[i] == t.ready[i] by {
                assert(w.ready.subrange(0, s.ready.len() as int)[i] == w.ready[i]);
            }
        }
        assert forall|i: int| s.ready.len() <= i < t.ready.len() implies exists|a: int|
            0 <= a < alarms.len() && (#[trigger] alarms[a]).task == #[trigger] t.ready[i] by {
            if i < w.ready.len() {
                assert(t.ready[i] == w.ready[i]);
                let a = choose|a: int|
                    0 <= a < before.len() && (#[trigger] before[a]).task == w.ready[i];
                assert(alarms[a] == before[a]);
            }
        }
        assert forall|i: int, j: int| s.ready.len() <= i < j < t.ready.len() implies exists|a: int|
            {
                &&& 0 <= a < alarms.len()
                &&& (#[trigger] alarms[a]).task == #[trigger] t.ready[i]
                &&& forall|b: int|
                    0 <= b <= a ==> (#[trigger] alarms[b]).task != #[trigger] t.ready[j]
            } by {
            assert(t.ready[i] == w.ready[i]);
            if j < w.ready.len() {
                assert(t.ready[j] == w.ready[j]);
                let a = choose|a: int|
                    {
                        &&& 0 <= a < before.len()
                        &&& (#[trigger] before[a]).task == w.ready[i]
                        &&& forall|b: int| 0 <= b <= a ==> (#[trigger] before[b]).task != w.ready[j]
                    };
                assert(alarms[a] == before[a]);
                assert forall|b: int| 0 <= b <= a implies (#[trigger] alarms[b]).task
                    != t.ready[j] by {
                    assert(alarms[b] == before[b]);
                }
            } else {
                let a = choose|a: int|
                    0 <= a < before.len() && (#[trigger] before[a]).task == w.ready[i];
                assert(alarms[a] == before[a]);
                assert(t.ready[j] == last);
                assert forall|b: int| 0 <= b <= a implies (#[trigger] alarms[b]).task
                    != t.ready[j] by {
                    assert(alarms[b] == before[b]);
                }
            }
        }
    }
}

/// What waking tasks does to one of them.
proof fn lemma_wake_all_statuses(s: Schedule, alarms: Seq<Alarm>, task: usize)
    requires
        s.valid(),
        task < s.tasks.len(),
        forall|i: int| 0 <= i < alarms.len() ==> (#[trigger] alarms[i]).task < s.tasks.len(),
    ensures
        s.wake_all(alarms).tasks.len() == s.tasks.len(),
        s.tasks[task as int] != Status::Suspended ==> s.wake_all(alarms).tasks[task as int]
            == s.tasks[task as int],
        s.tasks[task as int] == Status::Suspended ==> s.wake_all(alarms).tasks[task as int] == (
        if exists|i: int| 0 <= i < alarms.len() && (#[trigger] alarms[i]).task == task {
            Status::Ready
        } else {
            Status::Suspended
        }),
    decreases alarms.len(),
{
    if alarms.len() > 0 {
        let before = alarms.drop_last();
        assert forall|i: int| 0 <= i < before.len() implies (#[trigger] before[i]).task
            < s.tasks.len() by {
            assert(alarms[i] == before[i]);
        }
        lemma_wake_all_statuses(s, before, task);
        lemma_wake_all_valid(s, before);
        if exists|i: int| 0 <= i < alarms.len() && (#[trigger] alarms[i]).task == task {
            let i = choose|i: int| 0 <= i < alarms.len() && (#[trigger] alarms[i]).task == task;
            if i < before.len() {
                assert(before[i].task == task);
            }
        }
        if exists|i: int| 0 <= i < before.len() && (#[trigger] before[i]).task == task {
            let i = choose|i: int| 0 <= i < before.len() && (#[trigger] before[i]).task == task;
            assert(alarms[i].task == task);
        }
        assert(alarms[alarms.len() - 1] == alarms.last());
    }
}

/// Of alarms that go off at once while no task is ready, the first has its task polled first.
proof fn lemma_first_woken(s: Schedule, alarms: Seq<Alarm>)
    requires
        s.valid(),
        s.ready.len() == 0,
        alarms.len() > 0,
        s.tasks[alarms[0].task as int] == Status::Suspended,
        forall|i: int| 0 <= i < alarms.len() ==> (#[trigger] alarms[i]).task < s.tasks.len(),
    ensures
        s.wake_all(alarms).ready.len() > 0,
        s.wake_all(alarms).ready[0] == alarms[0].task,
    decreases alarms.len(),
{
    let before = alarms.drop_last();
    if before.len() > 0 {
        assert forall|i: int| 0 <= i < before.len() implies (#[trigger] before[i]).task
            < s.tasks.len() by {
            assert(alarms[i] == before[i]);
        }
        lemma_first_woken(s, before);
    } else {
        reveal_with_fuel(Schedule::wake_all, 2);
    }
}

/// Settling keeps a schedule valid, moves time forward only, and leaves finished tasks alone.
proof fn lemma_settle(s: Schedule)
    requires
        s.valid(),
    ensures
        s.settle().valid(),
        s.settle().now >= s.now,
        s.settle().tasks.len() == s.tasks.len(),
        forall|t: int|
            0 <= t < s.tasks.len() ==> (s.tasks[t] == Status::Finished <==> #[trigger] s.settle().tasks[t]
                == Status::Finished),
    decreases s.alarms.len(),
{
    if s.ready.len() == 0 && s.alarms.len() > 0 {
        let time = s.alarms[0].deadline;
        let next = s.advance(time);
        lemma_due_bound(s.alarms, later(s.now, time));
        lemma_due_splits(s.alarms, later(s.now, time));
        lemma_advance_frame(s, time);
        lemma_advance_valid(s, time);
        assert forall|i: int| 0 <= i < s.fired(time).len() implies (
        #[trigger] s.fired(time)[i]).task < s.tasks.len() by {
            assert(s.fired(time)[i] == s.alarms[i]);
        }
        lemma_wake_all_valid(s.tick(time), s.fired(time));
        lemma_settle(next);
        assert forall|t: int| 0 <= t < s.tasks.len() implies (s.tasks[t] == Status::Finished
            <==> #[trigger] s.settle().tasks[t] == Status::Finished) by {
            lemma_wake_all_statuses(s.tick(time), s.fired(time), t as usize);
        }
    }
}

} // verus!
