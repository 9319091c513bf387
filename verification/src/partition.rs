//! The blobs of one partition, in the order of their names.
use crate::assoc::{collect, distinct, has_key, lemma_insert, lemma_lookup, lemma_remove, lemma_update, position};
use crate::storage::{lists, Blobs};
use vstd::prelude::*;

verus! {

/// Whether `a` and `b` agree on their first `k` bytes, and `a` then ends or has the smaller byte.
pub open spec fn parts_at(a: Seq<u8>, b: Seq<u8>, k: int) -> bool {
    &&& 0 <= k < b.len()
    &&& k <= a.len()
    &&& a.take(k) == b.take(k)
    &&& k == a.len() || a[k] < b[k]
}

/// Whether `a` comes before `b` in the order of a dictionary.
pub open spec fn before(a: Seq<u8>, b: Seq<u8>) -> bool {
    exists|k: int| parts_at(a, b, k)
}

/// Where one name stands relative to another.
#[derive(Clone, Copy, PartialEq, Eq, Structural)]
enum Rank {
    Before,
    Same,
    After,
}

proof fn lemma_before_is_transitive(a: Seq<u8>, b: Seq<u8>, c: Seq<u8>)
    requires
        before(a, b),
        before(b, c),
    ensures
        before(a, c),
{
    let i = choose|k: int| parts_at(a, b, k);
    let j = choose|k: int| parts_at(b, c, k);
    let k = if i <= j { i } else { j };
    assert(a.take(k) =~= a.take(i).take(k));
    assert(b.take(k) =~= b.take(i).take(k));
    assert(b.take(k) =~= b.take(j).take(k));
    assert(c.take(k) =~= c.take(j).take(k));
    if i < j {
        assert(b.take(j)[i] == c.take(j)[i]);
    }
    if j < i {
        assert(a.take(i)[j] == b.take(i)[j]);
    }
    assert(parts_at(a, c, k));
}

proof fn lemma_before_is_irreflexive(a: Seq<u8>)
    ensures
        !before(a, a),
{
}

/// Ranks `a` relative to `b`.
fn rank(a: &[u8], b: &[u8]) -> (rank: Rank)
    ensures
        match rank {
            Rank::Before => before(a@, b@),
            Rank::Same => a@ == b@,
            Rank::After => before(b@, a@),
        },
{
    let mut k: usize = 0;
    while k < a.len() && k < b.len() && a[k] == b[k]
        invariant
            k <= a@.len(),
            k <= b@.len(),
            a@.take(k as int) == b@.take(k as int),
        decreases a@.len() - k,
    {
        assert(a@.take(k + 1) =~= a@.take(k as int).push(a@[k as int]));
        assert(b@.take(k + 1) =~= b@.take(k as int).push(b@[k as int]));
        k += 1;
    }
    if k < b.len() && (k == a.len() || a[k] < b[k]) {
        assert(parts_at(a@, b@, k as int));
        Rank::Before
    } else if k < a.len() {
        assert(parts_at(b@, a@, k as int));
        Rank::After
    } else {
        assert(a@ =~= a@.take(k as int));
        assert(b@ =~= b@.take(k as int));
        Rank::Same
    }
}

struct Entry {
    name: Vec<u8>,
    contents: Vec<u8>,
}

impl Entry {
    spec fn pair(self) -> (Seq<u8>, Seq<u8>) {
        (self.name@, self.contents@)
    }
}

/// The blobs of one partition.
pub struct Partition {
    entries: Vec<Entry>,
}

spec fn pairs(entries: Seq<Entry>) -> Seq<(Seq<u8>, Seq<u8>)> {
    entries.map_values(|entry: Entry| entry.pair())
}

spec fn sorted(entries: Seq<Entry>) -> bool {
    forall|i: int, j: int|
        0 <= i < j < entries.len() ==> before(
            (#[trigger] entries[i]).name@,
            (#[trigger] entries[j]).name@,
        )
}

proof fn lemma_sorted_is_distinct(entries: Seq<Entry>)
    requires
        sorted(entries),
    ensures
        distinct(pairs(entries)),
{
    assert forall|i: int, j: int| 0 <= i < j < entries.len() implies (
    #[trigger] pairs(entries)[i]).0 != (#[trigger] pairs(entries)[j]).0 by {
        assert(before(entries[i].name@, entries[j].name@));
        lemma_before_is_irreflexive(entries[i].name@);
    }
}

impl View for Partition {
    type V = Blobs;

    closed spec fn view(&self) -> Blobs {
        collect(pairs(self.entries@))
    }
}

impl Partition {
    pub closed spec fn valid(self) -> bool {
        sorted(self.entries@)
    }

    /// A partition without blobs.
    pub fn new() -> (partition: Self)
        ensures
            partition.valid(),
            partition@ == Blobs::empty(),
    {
        let partition = Partition { entries: Vec::new() };
        assert(partition@ =~= Blobs::empty());
        partition
    }

    /// Where the blob named `name` stands, or where it would.
    fn find(&self, name: &[u8]) -> (found: Result<usize, usize>)
        requires
            self.valid(),
        ensures
            match found {
                Ok(at) => at < self.entries@.len() && self.entries@[at as int].name@ == name@
                    && self@.dom().contains(name@) && self@[name@]
                    == self.entries@[at as int].contents@,
                Err(at) => {
                    &&& at <= self.entries@.len()
                    &&& !self@.dom().contains(name@)
                    &&& forall|i: int|
                        0 <= i < at ==> before((#[trigger] self.entries@[i]).name@, name@)
                    &&& forall|i: int|
                        at <= i < self.entries@.len() ==> before(
                            name@,
                            (#[trigger] self.entries@[i]).name@,
                        )
                },
            },
    {
        let ghost all = pairs(self.entries@);
        proof {
            lemma_sorted_is_distinct(self.entries@);
        }
        let mut at: usize = 0;
        while at < self.entries.len()
            invariant
                self.valid(),
                at <= self.entries@.len(),
                all == pairs(self.entries@),
                distinct(all),
                forall|i: int| 0 <= i < at ==> before((#[trigger] self.entries@[i]).name@, name@),
            decreases self.entries@.len() - at,
        {
            match rank(self.entries[at].name.as_slice(), name) {
                Rank::Before => {},
                Rank::Same => {
                    proof {
                        lemma_lookup(all, at as int);
                    }
                    return Ok(at);
                },
                Rank::After => {
                    proof {
                        assert forall|i: int| at <= i < self.entries@.len() implies before(
                            name@,
                            (#[trigger] self.entries@[i]).name@,
                        ) by {
                            if i > at {
                                lemma_before_is_transitive(
                                    name@,
                                    self.entries@[at as int].name@,
                                    self.entries@[i].name@,
                                );
                            }
                        }
                        self.lemma_absent(name@, at as int);
                    }
                    return Err(at);
                },
            }
            at += 1;
        }
        proof {
            self.lemma_absent(name@, at as int);
        }
        Err(at)
    }

    proof fn lemma_absent(self, name: Seq<u8>, at: int)
        requires
            self.valid(),
            0 <= at <= self.entries@.len(),
            forall|i: int| 0 <= i < at ==> before((#[trigger] self.entries@[i]).name@, name),
            forall|i: int|
                at <= i < self.entries@.len() ==> before(name, (#[trigger] self.entries@[i]).name@),
        ensures
            !has_key(pairs(self.entries@), name),
            !self@.dom().contains(name),
    {
        lemma_before_is_irreflexive(name);
        if has_key(pairs(self.entries@), name) {
            let i = position(pairs(self.entries@), name);
            assert(self.entries@[i].name@ == name);
        }
    }

    /// Creates the blob named `name`, unless there is one, and returns a copy of it.
    pub fn open(&mut self, name: &[u8]) -> (contents: Vec<u8>)
        requires
            old(self).valid(),
        ensures
            final(self).valid(),
            final(self)@ == (if old(self)@.dom().contains(name@) {
                old(self)@
            } else {
                old(self)@.insert(name@, Seq::empty())
            }),
            final(self)@.dom().contains(name@),
            contents@ == final(self)@[name@],
    {
        match self.find(name) {
            Ok(at) => self.entries[at].contents.clone(),
            Err(at) => {
                let entry = Entry { name: copy(name), contents: Vec::new() };
                proof {
                    lemma_sorted_is_distinct(self.entries@);
                    self.lemma_absent(name@, at as int);
                    lemma_insert(pairs(self.entries@), at as int, name@, Seq::empty());
                    assert(pairs(self.entries@.insert(at as int, entry)) =~= pairs(
                        self.entries@,
                    ).insert(at as int, entry.pair()));
                    assert(entry.contents@ =~= Seq::<u8>::empty());
                }
                self.entries.insert(at, entry);
                Vec::new()
            },
        }
    }

    /// Replaces the blob named `name`, if there is one.
    pub fn store(&mut self, name: &[u8], contents: Vec<u8>) -> (found: bool)
        requires
            old(self).valid(),
        ensures
            final(self).valid(),
            found == old(self)@.dom().contains(name@),
            final(self)@ == (if found {
                old(self)@.insert(name@, contents@)
            } else {
                old(self)@
            }),
    {
        match self.find(name) {
            Ok(at) => {
                let entry = Entry { name: copy(name), contents };
                proof {
                    lemma_sorted_is_distinct(self.entries@);
                    lemma_update(pairs(self.entries@), at as int, contents@);
                    assert(pairs(self.entries@.update(at as int, entry)) =~= pairs(
                        self.entries@,
                    ).update(at as int, entry.pair()));
                }
                self.entries.set(at, entry);
                true
            },
            Err(_) => false,
        }
    }

    /// Removes the blob named `name`, if there is one.
    pub fn remove(&mut self, name: &[u8]) -> (found: bool)
        requires
            old(self).valid(),
        ensures
            final(self).valid(),
            found == old(self)@.dom().contains(name@),
            final(self)@ == (if found {
                old(self)@.remove(name@)
            } else {
                old(self)@
            }),
    {
        match self.find(name) {
            Ok(at) => {
                proof {
                    lemma_sorted_is_distinct(self.entries@);
                    lemma_remove(pairs(self.entries@), at as int);
                    assert(pairs(self.entries@.remove(at as int)) =~= pairs(self.entries@).remove(
                        at as int,
                    ));
                }
                self.entries.remove(at);
                true
            },
            Err(_) => false,
        }
    }

    /// The names of the blobs, in order.
    pub fn names(&self) -> (names: Vec<Vec<u8>>)
        requires
            self.valid(),
        ensures
            lists(names@, self@),
            forall|i: int, j: int|
                0 <= i < j < names@.len() ==> before((#[trigger] names@[i])@, (#[trigger] names@[j])@),
    {
        let mut names: Vec<Vec<u8>> = Vec::new();
        let mut i: usize = 0;
        while i < self.entries.len()
            invariant
                i <= self.entries@.len(),
                names@.len() == i,
                forall|j: int| 0 <= j < i ==> (#[trigger] names@[j])@ == self.entries@[j].name@,
            decreases self.entries@.len() - i,
        {
            names.push(copy(self.entries[i].name.as_slice()));
            i += 1;
        }
        proof {
            lemma_sorted_is_distinct(self.entries@);
            let all = pairs(self.entries@);
            assert forall|a: int, b: int| 0 <= a < b < names@.len() implies names@[a]@
                != names@[b]@ by {
                assert(all[a].0 != all[b].0);
            }
            assert forall|a: int| 0 <= a < names@.len() implies self@.dom().contains(
                (#[trigger] names@[a])@,
            ) by {
                lemma_lookup(all, a);
            }
            assert forall|name: Seq<u8>| #[trigger]
                self@.dom().contains(name) implies exists|a: int|
                0 <= a < names@.len() && (#[trigger] names@[a])@ == name by {
                let a = position(all, name);
                assert(all[a].0 == name);
                assert(names@[a]@ == name);
            }
        }
        names
    }
}

/// A copy of `bytes`.
pub fn copy(bytes: &[u8]) -> (copy: Vec<u8>)
    ensures
        copy@ == bytes@,
{
    let mut copy: Vec<u8> = Vec::new();
    copy.extend_from_slice(bytes);
    assert(copy@ =~= bytes@);
    copy
}

/// Names are in the order of a dictionary: a name comes before those that go on from it, the first
/// byte in which two names differ decides, and of two names one comes first unless they are equal.
pub proof fn law_names_are_in_dictionary_order(
    common: Seq<u8>,
    a: Seq<u8>,
    b: Seq<u8>,
    x: u8,
    y: u8,
    left: Seq<u8>,
    right: Seq<u8>,
)
    requires
        x < y,
    ensures
        before(common, common.push(x) + left),
        before(common.push(x) + left, common.push(y) + right),
        !before(a, a),
        before(a, b) ==> !before(b, a),
        a != b ==> before(a, b) || before(b, a),
{
    let k = common.len() as int;
    let lower = common.push(x) + left;
    let upper = common.push(y) + right;
    assert(lower.take(k) =~= common);
    assert(common.take(k) =~= common);
    assert(upper.take(k) =~= common);
    assert(parts_at(common, lower, k));
    assert(parts_at(lower, upper, k));
    lemma_before_is_irreflexive(a);
    if before(a, b) && before(b, a) {
        lemma_before_is_transitive(a, b, a);
    }
    assert(a.take(0) =~= b.take(0));
    lemma_before_is_total(a, b, 0);
}

proof fn lemma_before_is_total(a: Seq<u8>, b: Seq<u8>, k: int)
    requires
        0 <= k <= a.len(),
        k <= b.len(),
        a.take(k) == b.take(k),
    ensures
        a != b ==> before(a, b) || before(b, a),
    decreases a.len() - k,
{
    if k == a.len() && k == b.len() {
        assert(a =~= a.take(k));
        assert(b =~= b.take(k));
    } else if k < b.len() && (k == a.len() || a[k] < b[k]) {
        assert(parts_at(a, b, k));
    } else if k == b.len() || b[k] < a[k] {
        assert(parts_at(b, a, k));
    } else {
        assert(a.take(k + 1) =~= a.take(k).push(a[k]));
        assert(b.take(k + 1) =~= b.take(k).push(b[k]));
        lemma_before_is_total(a, b, k + 1);
    }
}

} // verus!
