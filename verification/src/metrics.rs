//! Labels of contexts, and the metrics registered under them.
use crate::state::Shared;
use prometheus_client::metrics::counter::Counter;
use vstd::prelude::*;
use vstd::string::*;

verus! {

/// Prefix for runtime metrics.
pub const METRICS_PREFIX: &'static str = "runtime";

/// `name` as seen from a context labelled `label`: with the label and an underscore before it,
/// unless the label is empty.
pub open spec fn scoped(label: Seq<char>, name: Seq<char>) -> Seq<char> {
    if label.len() == 0 {
        name
    } else {
        label + "_"@ + name
    }
}

/// Whether `label` starts with the prefix that is reserved for metrics of the runtime.
pub open spec fn reserved(label: Seq<char>) -> bool {
    METRICS_PREFIX@.is_prefix_of(label)
}

/// Whether `needle` occurs in `text`.
pub open spec fn occurs(needle: Seq<char>, text: Seq<char>) -> bool {
    exists|at: int|
        0 <= at <= text.len() - needle.len() && #[trigger] text.subrange(at, at + needle.len())
            == needle
}

/// Interface to register and encode metrics.
pub trait Metrics<R: Shared>: Clone + Send + Sync + 'static {
    /// The label of the context.
    spec fn context_label(&self) -> Seq<char>;

    /// The metrics registered so far, each with its name and help text.
    spec fn registered(runtime: &R) -> Seq<(Seq<char>, Seq<char>, Counter<u64>)>;

    /// Get the current label of the context.
    fn label(&self) -> (label: String)
        ensures
            label@ == self.context_label(),
    ;

    /// Create a new instance of `Metrics` with the given label appended to the end
    /// of the current `Metrics` label.
    ///
    /// This is commonly used to create a nested context for `register`.
    ///
    /// It is not permitted for any implementation to use `METRICS_PREFIX` as the start of a
    /// label (reserved for metrics for the runtime).
    fn with_label(&self, label: &str) -> (nested: Self)
        requires
            !reserved(scoped(self.context_label(), label@)),
        ensures
            nested.context_label() == scoped(self.context_label(), label@),
    ;

    /// Prefix the given label with the current context's label.
    ///
    /// Unlike `with_label`, this method does not create a new context.
    fn scoped_label(&self, label: &str) -> (scoped_label: String)
        requires
            !reserved(scoped(self.context_label(), label@)),
        ensures
            scoped_label@ == scoped(self.context_label(), label@),
    {
        scope(self.label().as_str(), label)
    }

    /// Register a metric with the runtime.
    ///
    /// Any registered metric will include (as a prefix) the label of the current context.
    fn register(&self, runtime: &mut R, name: &str, help: &str, metric: Counter<u64>)
        requires
            old(runtime).valid(),
        ensures
            final(runtime).valid(),
            final(runtime).follows(old(runtime)),
            Self::registered(final(runtime)) == Self::registered(old(runtime)).push(
                (scoped(self.context_label(), name@), help@, metric),
            ),
    ;

    /// Encode all metrics into a buffer.
    fn encode(&self, runtime: &R) -> (buffer: String)
        requires
            runtime.valid(),
        ensures
            forall|i: int|
                0 <= i < Self::registered(runtime).len() ==> occurs(
                    (#[trigger] Self::registered(runtime)[i]).0,
                    buffer@,
                ),
    ;
}

/// `name` as seen from a context labelled `label`.
pub fn scope(label: &str, name: &str) -> (scoped_name: String)
    ensures
        scoped_name@ == scoped(label@, name@),
{
    if label.is_empty() {
        name.to_string()
    } else {
        let mut scoped_name = label.to_string();
        scoped_name.append("_");
        scoped_name.append(name);
        scoped_name
    }
}

/// Whether `label` is reserved for metrics of the runtime, so that no context can have it.
pub fn is_reserved(label: &str) -> (yes: bool)
    ensures
        yes == reserved(label@),
{
    let prefix = METRICS_PREFIX;
    let len: usize = prefix.unicode_len();
    if label.unicode_len() < len {
        return false;
    }
    let mut i: usize = 0;
    while i < len
        invariant
            i <= len,
            len == prefix@.len() <= label@.len(),
            prefix@ == METRICS_PREFIX@,
            prefix@.subrange(0, i as int) == label@.subrange(0, i as int),
        decreases len - i,
    {
        if prefix.get_char(i) != label.get_char(i) {
            assert(prefix@[i as int] != label@.subrange(0, len as int)[i as int]);
            return false;
        }
        i += 1;
        assert(prefix@.subrange(0, i as int) =~= prefix@.subrange(0, i - 1).push(prefix@[i - 1]));
        assert(label@.subrange(0, i as int) =~= label@.subrange(0, i - 1).push(label@[i - 1]));
    }
    assert(prefix@.subrange(0, len as int) =~= prefix@);
    true
}

/// A scoped name starts with the label of its context and ends with the name itself.
pub proof fn law_scoped_name_carries_label(label: Seq<char>, name: Seq<char>)
    ensures
        label.is_prefix_of(scoped(label, name)),
        name.is_suffix_of(scoped(label, name)),
{
    if label.len() > 0 {
        assert(scoped(label, name).subrange(0, label.len() as int) =~= label);
        assert(scoped(label, name).subrange(
            scoped(label, name).len() - name.len(),
            scoped(label, name).len() as int,
        ) =~= name);
    }
}

/// Nesting contexts one by one gives the same names as one context with the joined label.
pub proof fn law_nesting_joins_labels(label: Seq<char>, outer: Seq<char>, inner: Seq<char>)
    requires
        outer.len() > 0,
    ensures
        scoped(scoped(label, outer), inner) == scoped(label, scoped(outer, inner)),
{
    if label.len() > 0 {
        assert(label + "_"@ + outer + "_"@ + inner =~= label + "_"@ + (outer + "_"@ + inner));
    }
}

/// Below a context with a label of its own, no label is reserved: `with_label` and
/// `scoped_label` can only be refused on a context without a label.
pub proof fn law_nested_label_is_never_reserved(label: Seq<char>, name: Seq<char>)
    requires
        label.len() > 0,
        !reserved(label),
    ensures
        !reserved(scoped(label, name)),
{
    reveal_strlit("runtime");
    reveal_strlit("_");
    let prefix = METRICS_PREFIX@;
    let nested = scoped(label, name);
    if prefix.is_prefix_of(nested) {
        let n = label.len() as int;
        if n < prefix.len() {
            assert(nested.subrange(0, prefix.len() as int)[n] == '_');
            assert(prefix[n] != '_');
        } else {
            assert(label.subrange(0, prefix.len() as int) =~= nested.subrange(
                0,
                prefix.len() as int,
            ));
        }
    }
}

/// No metric of a context with a label of its own has the name of a metric of the runtime.
pub proof fn law_runtime_metrics_are_apart(label: Seq<char>, name: Seq<char>, own: Seq<char>)
    requires
        label.len() > 0,
        !reserved(label),
    ensures
        scoped(label, name) != scoped(METRICS_PREFIX@, own),
{
    law_nested_label_is_never_reserved(label, name);
    reveal_strlit("runtime");
    law_scoped_name_carries_label(METRICS_PREFIX@, own);
}

/// A scoped name is the label of the context, an underscore and the name, or the name alone if the
/// context has no label.
pub proof fn law_scoped_name_is_spelled_out(label: Seq<char>, name: Seq<char>)
    ensures
        label.len() == 0 ==> scoped(label, name) == name,
        label.len() > 0 ==> {
            &&& scoped(label, name).len() == label.len() + 1 + name.len()
            &&& forall|i: int|
                0 <= i < label.len() ==> #[trigger] scoped(label, name)[i] == label[i]
            &&& scoped(label, name)[label.len() as int] == '_'
            &&& forall|i: int|
                label.len() < i < scoped(label, name).len() ==> #[trigger] scoped(label, name)[i]
                    == name[i - label.len() - 1]
        },
{
    reveal_strlit("_");
}

/// Just the labels that begin with the word "runtime" are reserved.
pub proof fn law_reserved_labels_begin_with_the_prefix(label: Seq<char>)
    ensures
        reserved(label) <==> label.len() >= 7 && label.take(7) == seq![
            'r',
            'u',
            'n',
            't',
            'i',
            'm',
            'e',
        ],
{
    reveal_strlit("runtime");
    let word = seq!['r', 'u', 'n', 't', 'i', 'm', 'e'];
    assert(METRICS_PREFIX@ =~= word);
    if label.len() >= 7 {
        assert(label.take(7) =~= label.subrange(0, 7));
    }
}

/// A text occurs in another just if that is the text with something before and after it.
pub proof fn law_text_occurs_between_others(
    needle: Seq<char>,
    text: Seq<char>,
    left: Seq<char>,
    right: Seq<char>,
)
    ensures
        occurs(needle, left + needle + right),
        occurs(needle, text) ==> exists|at: int|
            0 <= at <= text.len() - needle.len() && text == #[trigger] text.take(at) + needle
                + text.skip(at + needle.len()),
{
    let whole = left + needle + right;
    let at = left.len() as int;
    assert(whole.subrange(at, at + needle.len()) =~= needle);
    if occurs(needle, text) {
        let at = choose|at: int|
            0 <= at <= text.len() - needle.len() && #[trigger] text.subrange(at, at + needle.len())
                == needle;
        assert(text =~= text.take(at) + text.subrange(at, at + needle.len()) + text.skip(
            at + needle.len(),
        ));
    }
}

} // verus!
