//! The metrics of a runtime, kept in and rendered by `prometheus_client`.
use crate::metrics::occurs;
use prometheus_client::encoding::text;
use prometheus_client::metrics::counter::Counter;
use prometheus_client::metrics::gauge::ConstGauge;
use prometheus_client::registry::Registry;
use vstd::prelude::*;

verus! {

/// `prometheus_client`'s list of metrics.
#[verifier::external_type_specification]
#[verifier::external_body]
pub struct ExRegistry(Registry);

/// `prometheus_client`'s counter: a handle to a shared number that only grows.
#[verifier::external_type_specification]
#[verifier::external_body]
#[verifier::reject_recursive_types(N)]
#[verifier::reject_recursive_types(A)]
pub struct ExCounter<N, A>(Counter<N, A>);

/// The metrics of `registry`, in the order in which they were registered.
///
/// Each is given by its name, its help text, and the value it shows: a number for a constant
/// gauge, `None` for a counter, whose number is shared and can change at any time.
pub uninterp spec fn entries(registry: Registry) -> Seq<(Seq<char>, Seq<char>, Option<int>)>;

/// The counters of `registry`, each at the place that it has among the metrics: `None` at that of
/// a constant gauge.
///
/// A counter is a handle: two that are equal here share one number.
pub uninterp spec fn counters(registry: Registry) -> Seq<Option<Counter<u64>>>;

/// Whether `registry` holds nothing but counters of `u64` and constant gauges of `i64`, with
/// neither a prefix nor labels, collectors or registries below it.
pub uninterp spec fn plain(registry: Registry) -> bool;

/// Calls `Registry::default`: the new registry is plain and has no metrics.
#[verifier::external_body]
pub(crate) fn new_registry() -> (registry: Registry)
    ensures
        entries(registry) == Seq::<(Seq<char>, Seq<char>, Option<int>)>::empty(),
        counters(registry) == Seq::<Option<Counter<u64>>>::empty(),
        plain(registry),
{
    Registry::default()
}

/// Calls `Registry::register` with a counter: that counter is listed after the metrics already
/// there, under the given name and help text.
#[verifier::external_body]
pub(crate) fn register_counter(
    registry: &mut Registry,
    name: String,
    help: &str,
    metric: Counter<u64>,
)
    ensures
        entries(*final(registry)) == entries(*old(registry)).push((name@, help@, None)),
        counters(*final(registry)) == counters(*old(registry)).push(Some(metric)),
        plain(*final(registry)) == plain(*old(registry)),
{
    registry.register(name, help, metric)
}

/// Calls `Registry::register` with a constant gauge: it is listed after the metrics already
/// there.
#[verifier::external_body]
pub(crate) fn register_const_gauge(registry: &mut Registry, name: String, help: &str, value: i64)
    ensures
        entries(*final(registry)) == entries(*old(registry)).push((name@, help@, Some(value as int))),
        counters(*final(registry)) == counters(*old(registry)).push(None),
        plain(*final(registry)) == plain(*old(registry)),
{
    registry.register(name, help, ConstGauge::new(value))
}

/// Calls `prometheus_client::encoding::text::encode_registry` on an empty buffer: the buffer
/// then holds one family of lines for each metric, in the order of the registry. The number
/// that a counter shows is whatever it holds at that moment; the contract leaves it open.
#[verifier::external_body]
pub(crate) fn encode_registry(registry: &Registry) -> (buffer: String)
    requires
        plain(*registry),
    ensures
        renders(buffer@, entries(*registry)),
{
    let mut buffer = String::new();
    text::encode_registry(&mut buffer, registry).expect("writing to a string cannot fail");
    buffer
}

/// Calls `prometheus_client::encoding::text::encode_eof`, which appends the marker of the end of
/// an exposition.
#[verifier::external_body]
pub(crate) fn encode_eof(buffer: &mut String)
    ensures
        final(buffer)@ == old(buffer)@ + "# EOF\n"@,
{
    text::encode_eof(buffer).expect("writing to a string cannot fail")
}

/// Whether `text` shows the metrics of `entries`, one after the other.
pub open spec fn renders(
    text: Seq<char>,
    entries: Seq<(Seq<char>, Seq<char>, Option<int>)>,
) -> bool {
    exists|values: Seq<int>| #[trigger] shows(entries, values) && text == families(entries, values)
}

/// Whether the metrics of `entries` can show `values` at once: a constant gauge shows its value,
/// a counter some number of its type.
pub open spec fn shows(
    entries: Seq<(Seq<char>, Seq<char>, Option<int>)>,
    values: Seq<int>,
) -> bool {
    &&& values.len() == entries.len()
    &&& forall|i: int|
        0 <= i < entries.len() ==> match (#[trigger] entries[i]).2 {
            Some(value) => values[i] == value,
            None => 0 <= values[i] <= u64::MAX,
        }
}

/// The decimal digits of `n`.
pub open spec fn digits(n: nat) -> Seq<char>
    decreases n,
{
    if n < 10 {
        seq![('0' as int + n) as char]
    } else {
        digits(n / 10).push(('0' as int + n % 10) as char)
    }
}

/// `value` in decimal.
pub open spec fn number(value: int) -> Seq<char> {
    if value < 0 {
        "-"@ + digits((-value) as nat)
    } else {
        digits(value as nat)
    }
}

/// The lines of one metric that shows `value`.
pub open spec fn family(entry: (Seq<char>, Seq<char>, Option<int>), value: int) -> Seq<char> {
    let (name, help, constant) = entry;
    let (kind, suffix) = if constant is Some {
        ("gauge"@, ""@)
    } else {
        ("counter"@, "_total"@)
    };
    "# HELP "@ + name + " "@ + help + ".\n# TYPE "@ + name + " "@ + kind + "\n"@ + name + suffix
        + " "@ + number(value) + "\n"@
}

/// The lines of all metrics, when they show `values`.
pub open spec fn families(
    entries: Seq<(Seq<char>, Seq<char>, Option<int>)>,
    values: Seq<int>,
) -> Seq<char>
    decreases entries.len(),
{
    if entries.len() == 0 {
        Seq::empty()
    } else {
        families(entries.drop_last(), values.drop_last()) + family(entries.last(), values.last())
    }
}

/// What occurs in a text occurs in every text around it.
pub proof fn lemma_occurs_within(needle: Seq<char>, left: Seq<char>, text: Seq<char>, right: Seq<char>)
    requires
        occurs(needle, text),
    ensures
        occurs(needle, left + text + right),
{
    let at = choose|at: int|
        0 <= at <= text.len() - needle.len() && #[trigger] text.subrange(at, at + needle.len())
            == needle;
    let whole = left + text + right;
    let from = left.len() + at;
    assert(whole.subrange(from, from + needle.len()) =~= text.subrange(at, at + needle.len()));
}

/// A text that renders metrics names each of them.
pub proof fn law_rendered_metrics_are_named(
    text: Seq<char>,
    entries: Seq<(Seq<char>, Seq<char>, Option<int>)>,
    i: int,
)
    requires
        renders(text, entries),
        0 <= i < entries.len(),
    ensures
        occurs(entries[i].0, text),
{
    let values = choose|values: Seq<int>| #[trigger]
        shows(entries, values) && text == families(entries, values);
    lemma_families_name(entries, values, i);
}

/// The lines of each metric occur in those of all.
pub proof fn lemma_family_occurs(
    entries: Seq<(Seq<char>, Seq<char>, Option<int>)>,
    values: Seq<int>,
    i: int,
)
    requires
        entries.len() == values.len(),
        0 <= i < entries.len(),
    ensures
        occurs(family(entries[i], values[i]), families(entries, values)),
    decreases entries.len(),
{
    let before = families(entries.drop_last(), values.drop_last());
    let last = family(entries.last(), values.last());
    assert(before + last =~= before + last + Seq::<char>::empty());
    assert(before + last =~= Seq::<char>::empty() + before + last);
    if i == entries.len() - 1 {
        let at: int = 0;
        assert(last.subrange(at, at + last.len()) =~= last);
        lemma_occurs_within(last, before, last, Seq::empty());
    } else {
        lemma_family_occurs(entries.drop_last(), values.drop_last(), i);
        lemma_occurs_within(family(entries[i], values[i]), Seq::empty(), before, last);
    }
}

proof fn lemma_families_name(
    entries: Seq<(Seq<char>, Seq<char>, Option<int>)>,
    values: Seq<int>,
    i: int,
)
    requires
        entries.len() == values.len(),
        0 <= i < entries.len(),
    ensures
        occurs(entries[i].0, families(entries, values)),
    decreases entries.len(),
{
    let before = families(entries.drop_last(), values.drop_last());
    let last = family(entries.last(), values.last());
    assert(before + last =~= before + last + Seq::<char>::empty());
    assert(before + last =~= Seq::<char>::empty() + before + last);
    if i == entries.len() - 1 {
        let name = entries[i].0;
        let from = "# HELP "@.len() as int;
        assert(last.subrange(from, from + name.len()) =~= name);
        lemma_occurs_within(name, before, last, Seq::empty());
    } else {
        lemma_families_name(entries.drop_last(), values.drop_last(), i);
        lemma_occurs_within(entries[i].0, Seq::empty(), before, last);
    }
}

/// The number that decimal digits stand for.
pub open spec fn value_of(text: Seq<char>) -> int
    decreases text.len(),
{
    if text.len() == 0 {
        0
    } else {
        10 * value_of(text.drop_last()) + (text.last() as int - '0' as int)
    }
}

/// A number is rendered in decimal digits without leading zeros, with a minus sign before them if
/// it is negative.
pub proof fn law_numbers_are_decimal(n: nat)
    ensures
        value_of(number(n as int)) == n,
        number(n as int).len() > 0,
        forall|i: int|
            0 <= i < number(n as int).len() ==> '0' <= #[trigger] number(n as int)[i] <= '9',
        n > 0 ==> number(n as int)[0] != '0',
        n > 0 ==> number(-(n as int)) == "-"@ + number(n as int),
{
    lemma_digits_are_decimal(n);
}

proof fn lemma_digits_are_decimal(n: nat)
    ensures
        value_of(digits(n)) == n,
        digits(n).len() > 0,
        forall|i: int| 0 <= i < digits(n).len() ==> '0' <= #[trigger] digits(n)[i] <= '9',
        n > 0 ==> digits(n)[0] != '0',
    decreases n,
{
    if n < 10 {
        assert(digits(n).drop_last() =~= Seq::<char>::empty());
        reveal_with_fuel(value_of, 2);
    } else {
        lemma_digits_are_decimal(n / 10);
        let last = ('0' as int + n % 10) as char;
        assert(digits(n).drop_last() =~= digits(n / 10));
        assert(digits(n).last() == last);
        assert(n == 10 * (n / 10) + n % 10);
    }
}

} // verus!
