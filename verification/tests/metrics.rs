use commonware_runtime::deterministic::Executor;
use commonware_runtime::metrics::{is_reserved, scope, METRICS_PREFIX};
use commonware_runtime::{Metrics, Runner, Shared, Spawner, Storage};
use prometheus_client::metrics::counter::Counter;

fn test_metrics<R: Shared, C: Spawner<R> + Metrics<R>>(
    runner: impl Runner,
    context: C,
    runtime: R,
) {
    runner.start(move || {
        let mut runtime = runtime;
        // Assert label
        assert_eq!(context.label(), "");

        // Register a metric
        let counter = Counter::<u64>::default();
        context.register(&mut runtime, "test", "test", counter.clone());

        // Increment the counter
        counter.inc();

        // Encode metrics
        let buffer = context.encode(&runtime);
        assert!(buffer.contains("test_total 1"));

        // Nested context
        let context = context.with_label("nested");
        let nested_counter = Counter::<u64>::default();
        context.register(&mut runtime, "test", "test", nested_counter.clone());

        // Increment the counter
        nested_counter.inc();

        // Encode metrics
        let buffer = context.encode(&runtime);
        assert!(buffer.contains("nested_test_total 1"));
        assert!(buffer.contains("test_total 1"));
    });
}

#[test]
fn test_deterministic_metrics() {
    let (executor, context, runtime) = Executor::default();
    test_metrics(executor, context, runtime);
}

#[test]
fn labels_nest() {
    let (_, context, _) = Executor::default();
    assert_eq!(context.scoped_label("a"), "a");
    let outer = context.with_label("a");
    let inner = outer.with_label("b");
    assert_eq!(inner.label(), "a_b");
    assert_eq!(inner.scoped_label("c"), "a_b_c");
    assert_eq!(inner.scoped_label("c"), outer.scoped_label("b_c"));
    assert_eq!(outer.label(), "a");
    assert_eq!(scope("", "x"), "x");
    assert_eq!(scope("x", ""), "x_");
}

#[test]
fn only_the_start_of_a_label_is_reserved() {
    assert!(is_reserved(METRICS_PREFIX));
    assert!(is_reserved("runtime_open_blobs"));
    assert!(is_reserved("runtimes"));
    assert!(!is_reserved(""));
    assert!(!is_reserved("runtim"));
    assert!(!is_reserved("Runtime"));
    assert!(!is_reserved("my_runtime"));
    let (_, context, _) = Executor::default();
    assert_eq!(context.with_label("my").scoped_label("runtime"), "my_runtime");
}

#[test]
fn exposition_shows_every_metric() {
    let (_, context, mut runtime) = Executor::default();
    let counter = Counter::<u64>::default();
    context
        .with_label("a")
        .register(&mut runtime, "hits", "How often", counter.clone());
    counter.inc_by(12);
    context.open(&mut runtime, "p", b"n").unwrap();
    context.open(&mut runtime, "p", b"n").unwrap();
    assert_eq!(
        context.encode(&runtime),
        "# HELP a_hits How often.\n\
         # TYPE a_hits counter\n\
         a_hits_total 12\n\
         # HELP runtime_open_blobs Number of open blobs.\n\
         # TYPE runtime_open_blobs gauge\n\
         runtime_open_blobs 2\n\
         # EOF\n"
    );
}

#[test]
fn every_counter_is_shown_under_its_own_name() {
    let (_, context, mut runtime) = Executor::default();
    let first = Counter::<u64>::default();
    let second = Counter::<u64>::default();
    context.register(&mut runtime, "first", "One", first.clone());
    context.register(&mut runtime, "second", "Two", second.clone());
    first.inc_by(3);
    second.inc_by(5);
    let buffer = context.encode(&runtime);
    assert!(buffer.contains("first_total 3\n"));
    assert!(buffer.contains("second_total 5\n"));
    first.inc();
    assert!(context.encode(&runtime).contains("first_total 4\n"));
}
