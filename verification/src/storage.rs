//! Partitions of blobs.
use crate::error::Error;
use crate::state::Shared;
use vstd::prelude::*;

verus! {

/// The blobs of a partition, by name.
pub type Blobs = Map<Seq<u8>, Seq<u8>>;

/// The length of a blob once it has been written up to `end`.
pub open spec fn extended(len: nat, end: nat) -> nat {
    if len < end {
        end
    } else {
        len
    }
}

/// `contents` once `data` has been written at `offset`: a gap before it is filled with zeros.
pub open spec fn written(contents: Seq<u8>, offset: nat, data: Seq<u8>) -> Seq<u8> {
    Seq::new(
        extended(contents.len(), offset + data.len()),
        |i: int|
            if offset <= i < offset + data.len() {
                data[i - offset]
            } else if i < contents.len() {
                contents[i]
            } else {
                0
            },
    )
}

/// Whether `contents` holds `len` bytes from `offset` on.
pub open spec fn readable(contents: Seq<u8>, offset: nat, len: nat) -> bool {
    offset + len <= contents.len()
}

/// The `len` bytes of `contents` from `offset` on.
pub open spec fn read(contents: Seq<u8>, offset: nat, len: nat) -> Seq<u8> {
    contents.subrange(offset as int, (offset + len) as int)
}

/// `contents` cut down to `len` bytes, if it is longer.
pub open spec fn truncated(contents: Seq<u8>, len: nat) -> Seq<u8> {
    if len <= contents.len() {
        contents.take(len as int)
    } else {
        contents
    }
}

/// The blob named `name` in `partition`, if there is one.
pub open spec fn stored(
    partitions: Map<Seq<char>, Blobs>,
    partition: Seq<char>,
    name: Seq<u8>,
) -> Option<Seq<u8>> {
    if partitions.dom().contains(partition) && partitions[partition].dom().contains(name) {
        Some(partitions[partition][name])
    } else {
        None
    }
}

/// The blobs of `partition`: none, if there is no such partition.
pub open spec fn blobs_of(partitions: Map<Seq<char>, Blobs>, partition: Seq<char>) -> Blobs {
    if partitions.dom().contains(partition) {
        partitions[partition]
    } else {
        Map::empty()
    }
}

/// `partitions` once a blob was opened: an existing one is left alone, a missing one is created
/// empty, along with its partition.
pub open spec fn opened_in(
    partitions: Map<Seq<char>, Blobs>,
    partition: Seq<char>,
    name: Seq<u8>,
) -> Map<Seq<char>, Blobs> {
    if stored(partitions, partition, name) is Some {
        partitions
    } else {
        partitions.insert(
            partition,
            blobs_of(partitions, partition).insert(name, Seq::empty()),
        )
    }
}

/// `partitions` once `contents` are what is stored in a blob.
pub open spec fn stored_in(
    partitions: Map<Seq<char>, Blobs>,
    place: (Seq<char>, Seq<u8>),
    contents: Seq<u8>,
) -> Map<Seq<char>, Blobs> {
    partitions.insert(place.0, blobs_of(partitions, place.0).insert(place.1, contents))
}

/// `partitions` without one blob or, if `name` is `None`, without a whole partition.
pub open spec fn removed_from(
    partitions: Map<Seq<char>, Blobs>,
    partition: Seq<char>,
    name: Option<Seq<u8>>,
) -> Map<Seq<char>, Blobs> {
    match name {
        Some(name) => partitions.insert(partition, partitions[partition].remove(name)),
        None => partitions.remove(partition),
    }
}

/// Whether there is such a blob or, if `name` is `None`, such a partition.
pub open spec fn exists_in(
    partitions: Map<Seq<char>, Blobs>,
    partition: Seq<char>,
    name: Option<Seq<u8>>,
) -> bool {
    match name {
        Some(name) => stored(partitions, partition, name) is Some,
        None => partitions.dom().contains(partition),
    }
}

/// The name in an optional slice of bytes.
pub open spec fn name_of(name: Option<&[u8]>) -> Option<Seq<u8>> {
    match name {
        Some(name) => Some(name@),
        None => None,
    }
}

/// Whether `names` lists `blobs`, each one once.
pub open spec fn lists(names: Seq<Vec<u8>>, blobs: Blobs) -> bool {
    &&& forall|i: int, j: int| 0 <= i < j < names.len() ==> names[i]@ != names[j]@
    &&& forall|i: int| 0 <= i < names.len() ==> blobs.dom().contains((#[trigger] names[i])@)
    &&& forall|name: Seq<u8>| #[trigger]
        blobs.dom().contains(name) ==> exists|i: int|
            0 <= i < names.len() && (#[trigger] names[i])@ == name
}

/// Interface to interact with storage.
///
/// Storage can be backed by a local filesystem, cloud storage, etc.
pub trait Storage<R: Shared>: Clone + Send + Sync + 'static {
    /// The readable/writeable storage buffer that can be opened by this Storage.
    type Blob: Blob<R>;

    /// Open an existing blob in a given partition or create a new one.
    ///
    /// Multiple instances of the same blob can be opened concurrently, however,
    /// writing to the same blob concurrently may lead to undefined behavior.
    fn open(&self, runtime: &mut R, partition: &str, name: &[u8]) -> (result: Result<
        Self::Blob,
        Error,
    >)
        requires
            old(runtime).valid(),
        ensures
            final(runtime).valid(),
            final(runtime).follows(old(runtime)),
            result matches Ok(blob) ==> {
                &&& Self::Blob::durable(final(runtime)) == opened_in(
                    Self::Blob::durable(old(runtime)),
                    partition@,
                    name@,
                )
                &&& blob.opened(final(runtime))
                &&& stored(Self::Blob::durable(final(runtime)), partition@, name@) == Some(
                    blob.contents(final(runtime)),
                )
                &&& blob.place(final(runtime)) == (partition@, name@)
            },
            forall|other: Self::Blob| #[trigger]
                other.opened(old(runtime)) ==> {
                    &&& other.opened(final(runtime))
                    &&& other.contents(final(runtime)) == other.contents(old(runtime))
                    &&& other.place(final(runtime)) == other.place(old(runtime))
                },
    ;

    /// Remove a blob from a given partition.
    ///
    /// If no `name` is provided, the entire partition is removed.
    fn remove(&self, runtime: &mut R, partition: &str, name: Option<&[u8]>) -> (result: Result<
        (),
        Error,
    >)
        requires
            old(runtime).valid(),
        ensures
            final(runtime).valid(),
            final(runtime).follows(old(runtime)),
            result is Ok ==> {
                &&& exists_in(Self::Blob::durable(old(runtime)), partition@, name_of(name))
                &&& Self::Blob::durable(final(runtime)) == removed_from(
                    Self::Blob::durable(old(runtime)),
                    partition@,
                    name_of(name),
                )
            },
    ;

    /// Return all blobs in a given partition.
    fn scan(&self, runtime: &R, partition: &str) -> (result: Result<Vec<Vec<u8>>, Error>)
        requires
            runtime.valid(),
        ensures
            result matches Ok(names) ==> {
                &&& Self::Blob::durable(runtime).dom().contains(partition@)
                &&& lists(names@, Self::Blob::durable(runtime)[partition@])
            },
    ;
}

/// Interface to read and write to a blob.
///
/// Cloning a blob is similar to wrapping a single file descriptor in
/// a lock whereas opening a new blob (of the same name) is similar to
/// opening a new file descriptor. If multiple blobs are opened with the same
/// name, they are not expected to coordinate access to underlying storage
/// and writing to both is undefined behavior.
pub trait Blob<R: Shared>: Clone + Send + Sync + 'static {
    /// Whether the blob was opened in this runtime.
    spec fn opened(&self, runtime: &R) -> bool;

    /// A blob that was opened stays so.
    proof fn law_stays_opened(&self, earlier: &R, later: &R)
        requires
            earlier.valid(),
            later.valid(),
            later.follows(earlier),
            self.opened(earlier),
        ensures
            self.opened(later),
    ;

    /// The bytes of the blob, data that is not yet durable among them.
    spec fn contents(&self, runtime: &R) -> Seq<u8>;

    /// The partition and the name that the blob was opened under.
    spec fn place(&self, runtime: &R) -> (Seq<char>, Seq<u8>);

    /// What is durably stored: the blobs of each partition, as they are when they are opened.
    spec fn durable(runtime: &R) -> Map<Seq<char>, Blobs>;

    /// Get the length of the blob.
    fn len(&self, runtime: &R) -> (result: Result<u64, Error>)
        requires
            runtime.valid(),
            self.opened(runtime),
        ensures
            result matches Ok(len) ==> len == self.contents(runtime).len(),
    ;

    /// Read from the blob at the given offset.
    ///
    /// `read_at` does not return the number of bytes read because it
    /// only returns once the entire buffer has been filled.
    fn read_at(&self, runtime: &R, buf: &mut [u8], offset: u64) -> (result: Result<(), Error>)
        requires
            runtime.valid(),
            self.opened(runtime),
        ensures
            final(buf)@.len() == old(buf)@.len(),
            result is Ok ==> readable(self.contents(runtime), offset as nat, old(buf)@.len())
                && final(buf)@ == read(self.contents(runtime), offset as nat, old(buf)@.len()),
    ;

    /// Write to the blob at the given offset.
    fn write_at(&self, runtime: &mut R, buf: &[u8], offset: u64) -> (result: Result<(), Error>)
        requires
            old(runtime).valid(),
            self.opened(old(runtime)),
        ensures
            final(runtime).valid(),
            final(runtime).follows(old(runtime)),
            self.opened(final(runtime)),
            self.place(final(runtime)) == self.place(old(runtime)),
            Self::durable(final(runtime)) == Self::durable(old(runtime)),
            result is Ok && buf@.len() > 0 ==> self.contents(final(runtime)) == written(
                self.contents(old(runtime)),
                offset as nat,
                buf@,
            ),
    ;

    /// Truncate the blob to the given length.
    fn truncate(&self, runtime: &mut R, len: u64) -> (result: Result<(), Error>)
        requires
            old(runtime).valid(),
            self.opened(old(runtime)),
        ensures
            final(runtime).valid(),
            final(runtime).follows(old(runtime)),
            self.opened(final(runtime)),
            self.place(final(runtime)) == self.place(old(runtime)),
            Self::durable(final(runtime)) == Self::durable(old(runtime)),
            result is Ok && len <= self.contents(old(runtime)).len() ==> self.contents(
                final(runtime),
            ) == truncated(self.contents(old(runtime)), len as nat),
    ;

    /// Ensure all pending data is durably persisted.
    fn sync(&self, runtime: &mut R) -> (result: Result<(), Error>)
        requires
            old(runtime).valid(),
            self.opened(old(runtime)),
        ensures
            final(runtime).valid(),
            final(runtime).follows(old(runtime)),
            self.opened(final(runtime)),
            self.contents(final(runtime)) == self.contents(old(runtime)),
            self.place(final(runtime)) == self.place(old(runtime)),
            result is Ok ==> Self::durable(final(runtime)) == stored_in(
                Self::durable(old(runtime)),
                self.place(old(runtime)),
                self.contents(old(runtime)),
            ),
    ;

    /// Close the blob.
    fn close(self, runtime: &mut R) -> (result: Result<(), Error>)
        requires
            old(runtime).valid(),
            self.opened(old(runtime)),
        ensures
            final(runtime).valid(),
            final(runtime).follows(old(runtime)),
            result is Ok ==> Self::durable(final(runtime)) == stored_in(
                Self::durable(old(runtime)),
                self.place(old(runtime)),
                self.contents(old(runtime)),
            ),
    ;
}

/// A read gives back what a write wrote.
pub proof fn law_read_gives_back_write(contents: Seq<u8>, offset: nat, data: Seq<u8>)
    ensures
        readable(written(contents, offset, data), offset, data.len()),
        read(written(contents, offset, data), offset, data.len()) == data,
{
    assert(read(written(contents, offset, data), offset, data.len()) =~= data);
}

/// A write leaves alone what lies before and after it.
pub proof fn law_write_leaves_the_rest_alone(
    contents: Seq<u8>,
    offset: nat,
    data: Seq<u8>,
    at: nat,
    len: nat,
)
    requires
        readable(contents, at, len),
        at + len <= offset || offset + data.len() <= at,
    ensures
        readable(written(contents, offset, data), at, len),
        read(written(contents, offset, data), at, len) == read(contents, at, len),
{
    assert(read(written(contents, offset, data), at, len) =~= read(contents, at, len));
}

/// Rewriting bytes that are there does not change the length; writing past the end grows the
/// blob just so far, with zeros in any gap.
pub proof fn law_write_extends_to_its_end(contents: Seq<u8>, offset: nat, data: Seq<u8>)
    ensures
        offset + data.len() <= contents.len() ==> written(contents, offset, data).len()
            == contents.len(),
        offset + data.len() > contents.len() ==> written(contents, offset, data).len() == offset
            + data.len(),
        forall|i: int|
            contents.len() <= i < offset ==> #[trigger] written(contents, offset, data)[i] == 0,
{
}

/// Consecutive writes append.
pub proof fn law_consecutive_writes_append(first: Seq<u8>, second: Seq<u8>)
    ensures
        written(written(Seq::empty(), 0, first), first.len(), second) == first + second,
{
    assert(written(written(Seq::empty(), 0, first), first.len(), second) =~= first + second);
}

/// Writes that do not overlap can be made in either order.
pub proof fn law_disjoint_writes_commute(
    contents: Seq<u8>,
    offset1: nat,
    data1: Seq<u8>,
    offset2: nat,
    data2: Seq<u8>,
)
    requires
        offset1 + data1.len() <= offset2 || offset2 + data2.len() <= offset1,
    ensures
        written(written(contents, offset1, data1), offset2, data2) == written(
            written(contents, offset2, data2),
            offset1,
            data1,
        ),
{
    assert(written(written(contents, offset1, data1), offset2, data2) =~= written(
        written(contents, offset2, data2),
        offset1,
        data1,
    ));
}

/// Truncation keeps what lies before its end, and makes what lies past it unreadable.
pub proof fn law_truncation_cuts_the_end_off(contents: Seq<u8>, len: nat, at: nat, n: nat)
    requires
        len <= contents.len(),
    ensures
        truncated(contents, len).len() == len,
        at + n <= len ==> read(truncated(contents, len), at, n) == read(contents, at, n),
        at + n > len ==> !readable(truncated(contents, len), at, n),
{
    if at + n <= len {
        assert(read(truncated(contents, len), at, n) =~= read(contents, at, n));
    }
}

/// Opening a blob leaves every blob that is there alone, and a missing one is created empty.
pub proof fn law_open_creates_only_what_is_missing(
    partitions: Map<Seq<char>, Blobs>,
    partition: Seq<char>,
    name: Seq<u8>,
    other_partition: Seq<char>,
    other: Seq<u8>,
)
    ensures
        stored(opened_in(partitions, partition, name), partition, name) == (match stored(
            partitions,
            partition,
            name,
        ) {
            Some(contents) => Some(contents),
            None => Some(Seq::<u8>::empty()),
        }),
        (other_partition, other) != (partition, name) ==> stored(
            opened_in(partitions, partition, name),
            other_partition,
            other,
        ) == stored(partitions, other_partition, other),
{
}

/// A blob that is opened again holds what was stored in it, and no other blob was changed.
pub proof fn law_stored_blob_is_there_on_reopening(
    partitions: Map<Seq<char>, Blobs>,
    place: (Seq<char>, Seq<u8>),
    contents: Seq<u8>,
    other: (Seq<char>, Seq<u8>),
)
    ensures
        ({
            let after = stored_in(partitions, place, contents);
            &&& opened_in(after, place.0, place.1) == after
            &&& stored(after, place.0, place.1) == Some(contents)
            &&& other != place ==> stored(after, other.0, other.1) == stored(
                partitions,
                other.0,
                other.1,
            )
        }),
{
}

/// A removed blob is gone, and nothing else is; its partition stays.
pub proof fn law_removed_blob_is_gone(
    partitions: Map<Seq<char>, Blobs>,
    partition: Seq<char>,
    name: Seq<u8>,
    other_partition: Seq<char>,
    other: Seq<u8>,
)
    requires
        stored(partitions, partition, name) is Some,
    ensures
        ({
            let after = removed_from(partitions, partition, Some(name));
            &&& stored(after, partition, name) is None
            &&& after.dom().contains(partition)
            &&& stored(opened_in(after, partition, name), partition, name) == Some(
                Seq::<u8>::empty(),
            )
            &&& (other_partition, other) != (partition, name) ==> stored(
                after,
                other_partition,
                other,
            ) == stored(partitions, other_partition, other)
        }),
{
}

/// A removed partition is gone with all its blobs, and no other partition is.
pub proof fn law_removed_partition_is_gone(
    partitions: Map<Seq<char>, Blobs>,
    partition: Seq<char>,
    name: Seq<u8>,
    other: Seq<char>,
)
    ensures
        ({
            let after = removed_from(partitions, partition, None);
            &&& !after.dom().contains(partition)
            &&& stored(after, partition, name) is None
            &&& other != partition ==> stored(after, other, name) == stored(
                partitions,
                other,
                name,
            )
        }),
{
}

/// Just the bytes that a blob holds can be read, and they are read as they are.
pub proof fn law_bytes_within_the_blob_are_readable(contents: Seq<u8>, offset: nat, len: nat)
    ensures
        readable(contents, offset, len) <==> offset + len <= contents.len(),
        offset + len <= contents.len() ==> {
            &&& read(contents, offset, len).len() == len
            &&& forall|i: int|
                0 <= i < len ==> #[trigger] read(contents, offset, len)[i] == contents[offset + i]
        },
{
}

/// A write changes the bytes from its offset on to its end, and no others: a byte of the blob is
/// the one written there, or else the one that was there, or else zero.
pub proof fn law_write_changes_just_its_bytes(contents: Seq<u8>, offset: nat, data: Seq<u8>, i: int)
    ensures
        ({
            let after = written(contents, offset, data);
            &&& after.len() >= contents.len()
            &&& after.len() >= offset + data.len()
            &&& after.len() == contents.len() || after.len() == offset + data.len()
            &&& 0 <= i < data.len() ==> after[offset + i] == data[i]
            &&& 0 <= i < contents.len() && (i < offset || i >= offset + data.len()) ==> after[i]
                == contents[i]
            &&& contents.len() <= i < offset ==> after[i] == 0
        }),
{
}

/// Truncating to a length that the blob does not have changes nothing.
pub proof fn law_truncation_never_extends(contents: Seq<u8>, len: nat, i: int)
    ensures
        len >= contents.len() ==> truncated(contents, len) == contents,
        len <= contents.len() ==> truncated(contents, len).len() == len,
        0 <= i < len <= contents.len() ==> truncated(contents, len)[i] == contents[i],
{
    if len == contents.len() {
        assert(contents.take(len as int) =~= contents);
    }
}

/// A blob is stored just if its partition is there and has a blob of that name.
pub proof fn law_stored_blob_is_in_its_partition(
    partitions: Map<Seq<char>, Blobs>,
    partition: Seq<char>,
    name: Seq<u8>,
)
    ensures
        stored(partitions, partition, name) is Some <==> partitions.dom().contains(partition)
            && partitions[partition].dom().contains(name),
        partitions.dom().contains(partition) && partitions[partition].dom().contains(name)
            ==> stored(partitions, partition, name) == Some(partitions[partition][name]),
        exists_in(partitions, partition, Some(name)) <==> partitions.dom().contains(partition)
            && partitions[partition].dom().contains(name),
        exists_in(partitions, partition, None) <==> partitions.dom().contains(partition),
        partitions.dom().contains(partition) ==> blobs_of(partitions, partition)
            == partitions[partition],
        !partitions.dom().contains(partition) ==> blobs_of(partitions, partition)
            == Map::<Seq<u8>, Seq<u8>>::empty(),
{
}

/// Opening a blob or storing into one adds its partition if it is missing, and no other; removing a
/// blob keeps all partitions, and removing a partition keeps all others.
pub proof fn law_partitions_come_and_go(
    partitions: Map<Seq<char>, Blobs>,
    partition: Seq<char>,
    name: Seq<u8>,
    contents: Seq<u8>,
    other: Seq<char>,
)
    ensures
        opened_in(partitions, partition, name).dom().contains(other) <==> other == partition
            || partitions.dom().contains(other),
        stored_in(partitions, (partition, name), contents).dom().contains(other) <==> other
            == partition || partitions.dom().contains(other),
        partitions.dom().contains(partition) ==> (removed_from(
            partitions,
            partition,
            Some(name),
        ).dom().contains(other) <==> partitions.dom().contains(other)),
        removed_from(partitions, partition, None).dom().contains(other) <==> other != partition
            && partitions.dom().contains(other),
{
}

/// A listing has every blob of a partition once, and nothing else.
pub proof fn law_listing_is_complete(names: Seq<Vec<u8>>, blobs: Blobs)
    ensures
        lists(names, blobs) <==> {
            let keys = names.map_values(|name: Vec<u8>| name@);
            &&& keys.no_duplicates()
            &&& keys.to_set() == blobs.dom()
        },
{
    let keys = names.map_values(|name: Vec<u8>| name@);
    assert(keys.len() == names.len());
    assert(forall|i: int| 0 <= i < names.len() ==> #[trigger] keys[i] == names[i]@);
    if lists(names, blobs) {
        assert(keys.no_duplicates()) by {
            assert forall|i: int, j: int| 0 <= i < keys.len() && 0 <= j < keys.len() && i
                != j implies keys[i] != keys[j] by {
                if i < j {
                    assert(names[i]@ != names[j]@);
                } else {
                    assert(names[j]@ != names[i]@);
                }
            }
        }
        assert forall|name: Seq<u8>| keys.to_set().contains(name) == blobs.dom().contains(name) by {
            if keys.contains(name) {
                let i = choose|i: int| 0 <= i < keys.len() && keys[i] == name;
                assert(blobs.dom().contains(names[i]@));
            }
            if blobs.dom().contains(name) {
                let i = choose|i: int| 0 <= i < names.len() && (#[trigger] names[i])@ == name;
                assert(keys[i] == name);
            }
        }
        assert(keys.to_set() =~= blobs.dom());
    }
    if keys.no_duplicates() && keys.to_set() == blobs.dom() {
        assert forall|i: int, j: int| 0 <= i < j < names.len() implies names[i]@ != names[j]@ by {
            assert(keys[i] != keys[j]);
        }
        assert forall|i: int| 0 <= i < names.len() implies blobs.dom().contains(
            (#[trigger] names[i])@,
        ) by {
            assert(keys.to_set().contains(keys[i]));
        }
        assert forall|name: Seq<u8>| #[trigger] blobs.dom().contains(name) implies exists|i: int|
            0 <= i < names.len() && (#[trigger] names[i])@ == name by {
            assert(keys.to_set().contains(name));
            let i = choose|i: int| 0 <= i < keys.len() && keys[i] == name;
            assert(names[i]@ == name);
        }
    }
}

/// A name that is given is the one that is meant.
pub proof fn law_given_name_is_meant(name: &[u8])
    ensures
        name_of(Some(name)) == Some(name@),
        name_of(None) is None,
{
}

} // verus!
