use commonware_runtime::deterministic::{Context, Executor, Runtime};
use commonware_runtime::scheduler::{Action, ROOT};
use commonware_runtime::time::{Duration, SystemTime};
use commonware_runtime::{Clock, Error, Metrics, Runner, Shared, Signaler, Spawner};

fn test_error_future(runner: impl Runner) {
    fn error_future() -> Result<&'static str, &'static str> {
        Err("An error occurred")
    }
    let result = runner.start(error_future);
    assert_eq!(result, Err("An error occurred"));
}

fn test_clock_sleep<R: Shared, C: Spawner<R> + Clock<R>>(
    runner: impl Runner,
    context: C,
    runtime: R,
) {
    runner.start(move || {
        let mut runtime = runtime;
        // Capture initial time
        let start = context.current(&mut runtime);
        let sleep_duration = Duration::from_millis(10);
        context.sleep(&mut runtime, sleep_duration);

        // After run, time should have advanced
        let end = context.current(&mut runtime);
        assert!(end.duration_since(start).unwrap() >= sleep_duration);
    });
}

fn test_clock_sleep_until<R: Shared, C: Spawner<R> + Clock<R>>(
    runner: impl Runner,
    context: C,
    runtime: R,
) {
    runner.start(move || {
        let mut runtime = runtime;
        // Trigger sleep
        let now = context.current(&mut runtime);
        let deadline = now.checked_add(Duration::from_millis(100)).unwrap();
        context.sleep_until(&mut runtime, deadline);

        // Ensure slept duration has elapsed
        let elapsed = context.current(&mut runtime).duration_since(now).unwrap();
        assert!(elapsed >= Duration::from_millis(100));
    });
}

fn test_spawn_ref<R: Shared, C: Spawner<R>>(runner: impl Runner, mut context: C, runtime: R) {
    runner.start(move || {
        let mut runtime = runtime;
        let mut handle = context.spawn_ref(&mut runtime);
        handle.run(|| 42);
        assert_eq!(handle.join(), Some(Ok(42)));
    });
}

fn test_spawn_blocking<R: Shared, C: Spawner<R>>(runner: impl Runner, context: C, runtime: R) {
    runner.start(move || {
        let mut runtime = runtime;
        let mut handle = context.spawn_blocking(&mut runtime);
        handle.run(|| 42);
        assert_eq!(handle.join(), Some(Ok(42)));
    });
}

#[test]
fn test_deterministic_future() {
    let (runner, _, _) = Executor::default();
    test_error_future(runner);
}

#[test]
fn test_deterministic_clock_sleep() {
    let (executor, context, mut runtime) = Executor::default();
    assert_eq!(context.current(&mut runtime), SystemTime::unix_epoch());
    test_clock_sleep(executor, context, runtime);
}

#[test]
fn test_deterministic_clock_sleep_until() {
    let (executor, context, runtime) = Executor::default();
    test_clock_sleep_until(executor, context, runtime);
}

#[test]
fn test_deterministic_root_finishes() {
    let (executor, context, mut runtime) = Executor::default();
    executor.start(move || {
        assert_eq!(runtime.next(), Action::Poll(ROOT));
        let (_, handle) = context.spawn::<()>(&mut runtime);

        // The spawned task reschedules itself for ever
        runtime.wake(ROOT);
        for _ in 0..10 {
            assert_eq!(runtime.next(), Action::Poll(handle.task()));
            runtime.wake(handle.task());
            assert_eq!(runtime.next(), Action::Poll(ROOT));
            runtime.wake(ROOT);
        }
        assert!(handle.outcome().is_none());

        // The root task finishes
        runtime.finish(ROOT);
        assert_eq!(runtime.next(), Action::Finish);
    });
}

#[test]
fn test_deterministic_spawn_abort() {
    let (executor, context, mut runtime) = Executor::default();
    executor.start(move || {
        let (_, mut handle) = context.spawn::<()>(&mut runtime);

        // The spawned task reschedules itself for ever
        assert_eq!(runtime.next(), Action::Poll(ROOT));
        for _ in 0..10 {
            assert_eq!(runtime.next(), Action::Poll(handle.task()));
            runtime.wake(handle.task());
        }
        handle.abort();
        assert_eq!(handle.join(), Some(Err(Error::Closed)));
    });
}

#[test]
fn test_deterministic_shutdown() {
    let (executor, context, mut runtime) = Executor::default();
    let kill = 9;
    executor.start(move || {
        // Spawn a task that waits for signal
        let (before_context, mut before) = context.with_label("before").spawn(&mut runtime);
        let mut before_signal = before_context.stopped(&runtime);

        // Spawn a task after stop is called
        let (after_context, mut after) = context.with_label("after").spawn(&mut runtime);
        let mut after_signal = after_context.stopped(&runtime);
        for _ in 0..5 {
            assert_eq!(after_signal.poll(runtime.signaler()), None);
            after_context.sleep(&mut runtime, Duration::from_millis(10));
        }
        assert_eq!(before_signal.poll(runtime.signaler()), None);

        // Signal the task
        context.stop(&mut runtime, kill);

        // Ensure both tasks complete
        before.run(|| assert_eq!(before_signal.poll(runtime.signaler()), Some(kill)));
        after.run(|| assert_eq!(after_signal.poll(runtime.signaler()), Some(kill)));
        assert!(before.join().unwrap().is_ok());
        assert!(after.join().unwrap().is_ok());
    });
}

#[test]
fn test_deterministic_spawn_ref() {
    let (executor, context, runtime) = Executor::default();
    test_spawn_ref(executor, context, runtime);
}

#[test]
fn test_deterministic_spawn_blocking() {
    let (executor, context, runtime) = Executor::default();
    test_spawn_blocking(executor, context, runtime);
}

#[test]
fn test_deterministic_spawn_blocking_abort() {
    let (executor, context, mut runtime) = Executor::default();
    executor.start(move || {
        // Create task
        let mut handle = context.spawn_blocking(&mut runtime);

        // Abort the task
        handle.abort();

        // Perform a long-running operation
        handle.run(|| {
            let mut count = 0;
            loop {
                count += 1;
                if count >= 100_000_000 {
                    break;
                }
            }
            count
        });

        // Wait for the task to complete
        assert_eq!(handle.join(), Some(Ok(100_000_000)));
    });
}

fn spawn_task(context: &Context, runtime: &mut Runtime) -> usize {
    context.clone().spawn::<()>(runtime).1.task()
}

#[test]
fn context_is_used_up_by_spawning() {
    let (_, mut context, mut runtime) = Executor::default();
    assert!(!context.is_spawned());
    context.spawn_ref::<()>(&mut runtime);
    assert!(context.is_spawned());
    assert!(!context.clone().is_spawned());
    let (child, _) = context.clone().spawn::<()>(&mut runtime);
    assert!(!child.is_spawned());
}

#[test]
fn outcome_is_final() {
    let (_, context, mut runtime) = Executor::default();
    let (_, mut handle) = context.clone().spawn::<u8>(&mut runtime);
    handle.finish(1);
    handle.abort();
    handle.finish(2);
    handle.fail();
    assert_eq!(handle.outcome(), Some(&Ok(1)));

    let (_, mut handle) = context.clone().spawn::<u8>(&mut runtime);
    handle.fail();
    handle.finish(1);
    assert_eq!(handle.join(), Some(Err(Error::Exited)));

    let (_, mut handle) = context.spawn::<u8>(&mut runtime);
    handle.abort();
    handle.abort();
    handle.finish(1);
    assert_eq!(handle.join(), Some(Err(Error::Closed)));
}

#[test]
fn only_the_first_stop_counts() {
    let (_, context, mut runtime) = Executor::default();
    let mut early = context.stopped(&runtime);
    context.stop(&mut runtime, 1);
    context.stop(&mut runtime, 2);
    let mut late = context.stopped(&runtime);
    assert_eq!(early.poll(runtime.signaler()), Some(1));
    assert_eq!(late.poll(runtime.signaler()), Some(1));

    // No task is killed by it
    assert_eq!(runtime.next(), Action::Poll(ROOT));

    let mut signaler = Signaler::new();
    let mut signal = signaler.subscribe();
    assert_eq!(signal.poll(&signaler), None);
    signaler.signal(3);
    assert_eq!(signal.poll(&signaler), Some(3));
}

#[test]
fn tasks_take_turns() {
    let (_, context, mut runtime) = Executor::default();
    let first = spawn_task(&context, &mut runtime);
    let second = spawn_task(&context, &mut runtime);
    assert_eq!(runtime.task_count(), 3);
    assert_eq!(runtime.next(), Action::Poll(ROOT));
    assert_eq!(runtime.next(), Action::Poll(first));
    runtime.wake(first);
    runtime.wake(first);
    assert_eq!(runtime.next(), Action::Poll(second));
    assert_eq!(runtime.next(), Action::Poll(first));
    runtime.finish(first);
    runtime.wake(first);
    runtime.wake(second);
    runtime.finish(second);

    // Nothing is left that could ever be polled
    assert_eq!(runtime.next(), Action::Stall);
    runtime.wake(ROOT);
    assert_eq!(runtime.next(), Action::Poll(ROOT));
}

#[test]
fn time_moves_from_alarm_to_alarm() {
    let (_, context, mut runtime) = Executor::default();
    let first = spawn_task(&context, &mut runtime);
    let second = spawn_task(&context, &mut runtime);
    for task in [ROOT, first, second] {
        assert_eq!(runtime.next(), Action::Poll(task));
    }
    runtime.arm(first, SystemTime { nanos: 20 });
    runtime.arm(second, SystemTime { nanos: 10 });
    runtime.arm(ROOT, SystemTime { nanos: 20 });
    assert_eq!(runtime.next(), Action::Poll(second));
    assert_eq!(context.current(&mut runtime).nanos, 10);
    assert_eq!(runtime.next(), Action::Poll(first));
    assert_eq!(context.current(&mut runtime).nanos, 20);
    assert_eq!(runtime.next(), Action::Poll(ROOT));
    assert_eq!(context.current(&mut runtime).nanos, 20);

    // The alarm of a task that has finished wakes no task
    runtime.arm(first, SystemTime { nanos: 30 });
    runtime.arm(second, SystemTime { nanos: 40 });
    runtime.finish(first);
    assert_eq!(runtime.next(), Action::Poll(second));
    assert_eq!(context.current(&mut runtime).nanos, 40);
}

#[test]
fn sleeping_wakes_just_the_tasks_that_are_due() {
    let (_, context, mut runtime) = Executor::default();
    let early = spawn_task(&context, &mut runtime);
    let late = spawn_task(&context, &mut runtime);
    for task in [ROOT, early, late] {
        assert_eq!(runtime.next(), Action::Poll(task));
    }
    runtime.arm(early, SystemTime { nanos: 5 });
    runtime.arm(late, SystemTime { nanos: 11 });
    context.sleep(&mut runtime, Duration { nanos: 10 });
    assert_eq!(context.current(&mut runtime).nanos, 10);
    assert_eq!(runtime.next(), Action::Poll(early));
    assert_eq!(context.current(&mut runtime).nanos, 10);
    assert_eq!(runtime.next(), Action::Poll(late));
    assert_eq!(context.current(&mut runtime).nanos, 11);

    // Time never goes back
    context.sleep_until(&mut runtime, SystemTime { nanos: 3 });
    assert_eq!(context.current(&mut runtime).nanos, 11);
}

#[test]
fn points_in_time_and_spans() {
    let start = SystemTime { nanos: 5 };
    let span = Duration::from_millis(2);
    assert_eq!(span.nanos, 2_000_000);
    let end = start.checked_add(span).unwrap();
    assert_eq!(end.nanos, 2_000_005);
    assert_eq!(end.duration_since(start), Some(span));
    assert_eq!(start.duration_since(end), None);
    assert_eq!(end.checked_add(Duration { nanos: u128::MAX }), None);
}

#[test]
fn sleeper_is_polled_only_once_it_is_due() {
    let (_, context, mut runtime) = Executor::default();
    let sleeper = spawn_task(&context, &mut runtime);
    let gone = spawn_task(&context, &mut runtime);
    for task in [ROOT, sleeper, gone] {
        assert_eq!(runtime.next(), Action::Poll(task));
    }

    // Time passes alarms that wake no task before the sleeper is due
    runtime.arm(gone, SystemTime { nanos: 10 });
    runtime.arm(gone, SystemTime { nanos: 20 });
    runtime.arm(sleeper, SystemTime { nanos: 30 });
    runtime.finish(gone);
    assert_eq!(runtime.next(), Action::Poll(sleeper));
    assert_eq!(context.current(&mut runtime).nanos, 30);
}

#[test]
fn deadlines_come() {
    let (_, context, mut runtime) = Executor::default();
    assert!(runtime.is_due(SystemTime { nanos: 0 }));
    assert!(!runtime.is_due(SystemTime { nanos: 1 }));
    context.sleep(&mut runtime, Duration { nanos: 1 });
    assert!(runtime.is_due(SystemTime { nanos: 1 }));
}
