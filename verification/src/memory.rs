//! Storage within one process.
use crate::assoc::{collect, distinct, has_key, lemma_insert, lemma_lookup, lemma_remove, lemma_update, position};
use crate::error::Error;
use crate::hex::{hex, hex_of};
use crate::partition::{before, copy, Partition};
use crate::storage::{exists_in, lists, name_of, opened_in, read, readable, removed_from, stored, truncated, written, Blobs};
use vstd::prelude::*;

verus! {

/// An open blob: what is written to it is pending until it is synced.
pub struct Descriptor {
    /// The partition of the blob.
    pub partition: Seq<char>,
    /// The name of the blob.
    pub name: Seq<u8>,
    /// The bytes of the blob, pending data among them.
    pub contents: Seq<u8>,
    /// Whether the blob has not been closed.
    pub open: bool,
}

/// All that is stored, as plain values.
#[verifier::ext_equal]
pub struct Volume {
    /// What is durable.
    pub partitions: Map<Seq<char>, Blobs>,
    /// The blobs that were opened, in order.
    pub descriptors: Seq<Descriptor>,
}

/// How many of `descriptors` are open.
pub open spec fn count_open(descriptors: Seq<Descriptor>) -> nat
    decreases descriptors.len(),
{
    if descriptors.len() == 0 {
        0
    } else {
        count_open(descriptors.drop_last()) + if descriptors.last().open {
            1nat
        } else {
            0
        }
    }
}

/// Whether the end of `len` bytes from `offset` on is a position that a blob can have.
pub open spec fn addressable(offset: nat, len: nat) -> bool {
    offset + len <= isize::MAX
}

/// Whether `error` says that there is no such blob or, if `name` is `None`, no such partition.
pub open spec fn says_missing(
    error: Error,
    partitions: Map<Seq<char>, Blobs>,
    partition: Seq<char>,
    name: Option<Seq<u8>>,
) -> bool {
    match error {
        Error::PartitionMissing(p) => p@ == partition && !partitions.dom().contains(partition),
        Error::BlobMissing(p, n) => name is Some && partitions.dom().contains(partition) && p@
            == partition && n@ == hex_of(name->0),
        _ => false,
    }
}

impl Volume {
    /// A volume on which nothing was stored.
    pub open spec fn empty() -> Volume {
        Volume { partitions: Map::empty(), descriptors: Seq::empty() }
    }

    /// A blob is opened: it holds what is durable, or nothing if it is new.
    pub open spec fn open(self, partition: Seq<char>, name: Seq<u8>) -> Volume {
        let partitions = opened_in(self.partitions, partition, name);
        let contents = partitions[partition][name];
        Volume {
            partitions,
            descriptors: self.descriptors.push(
                Descriptor { partition, name, contents, open: true },
            ),
        }
    }

    /// The bytes of an open blob are replaced; nothing durable is.
    pub open spec fn replace(self, id: usize, contents: Seq<u8>) -> Volume {
        Volume {
            descriptors: self.descriptors.update(
                id as int,
                Descriptor { contents, ..self.descriptors[id as int] },
            ),
            ..self
        }
    }

    pub open spec fn write(self, id: usize, offset: nat, data: Seq<u8>) -> Volume {
        self.replace(id, written(self.descriptors[id as int].contents, offset, data))
    }

    pub open spec fn truncate(self, id: usize, len: nat) -> Volume {
        self.replace(id, truncated(self.descriptors[id as int].contents, len))
    }

    /// What is durable of an open blob, unless it was removed.
    pub open spec fn persisted(self, id: usize) -> Option<Seq<u8>> {
        let blob = self.descriptors[id as int];
        stored(self.partitions, blob.partition, blob.name)
    }

    /// Pending data is made durable, unless the blob was removed.
    pub open spec fn sync(self, id: usize) -> Volume {
        let blob = self.descriptors[id as int];
        if self.persisted(id) is Some {
            Volume {
                partitions: self.partitions.insert(
                    blob.partition,
                    self.partitions[blob.partition].insert(blob.name, blob.contents),
                ),
                ..self
            }
        } else {
            self
        }
    }

    /// A blob is synced and is no longer open.
    pub open spec fn close(self, id: usize) -> Volume {
        let synced = self.sync(id);
        Volume {
            descriptors: synced.descriptors.update(
                id as int,
                Descriptor { open: false, ..synced.descriptors[id as int] },
            ),
            ..synced
        }
    }

    /// A blob or a whole partition is removed; blobs that are open keep their bytes.
    pub open spec fn remove(self, partition: Seq<char>, name: Option<Seq<u8>>) -> Volume {
        if exists_in(self.partitions, partition, name) {
            Volume { partitions: removed_from(self.partitions, partition, name), ..self }
        } else {
            self
        }
    }
}

struct Slot {
    name: String,
    blobs: Partition,
}

struct File {
    partition: String,
    name: Vec<u8>,
    contents: Vec<u8>,
    open: bool,
}

impl Slot {
    spec fn pair(self) -> (Seq<char>, Blobs) {
        (self.name@, self.blobs@)
    }
}

impl File {
    spec fn descriptor(self) -> Descriptor {
        Descriptor {
            partition: self.partition@,
            name: self.name@,
            contents: self.contents@,
            open: self.open,
        }
    }
}

spec fn pairs(slots: Seq<Slot>) -> Seq<(Seq<char>, Blobs)> {
    slots.map_values(|slot: Slot| slot.pair())
}

spec fn descriptors(files: Seq<File>) -> Seq<Descriptor> {
    files.map_values(|file: File| file.descriptor())
}

/// Storage within one process.
pub struct Memory {
    slots: Vec<Slot>,
    files: Vec<File>,
}

impl View for Memory {
    type V = Volume;

    closed spec fn view(&self) -> Volume {
        Volume {
            partitions: collect(pairs(self.slots@)),
            descriptors: descriptors(self.files@),
        }
    }
}

/// Where `len` bytes from `offset` on end, if that is a position that a blob can have.
fn end_of(offset: u64, len: usize) -> (end: Option<usize>)
    ensures
        match end {
            Some(end) => addressable(offset as nat, len as nat) && end == offset + len,
            None => !addressable(offset as nat, len as nat),
        },
{
    let max: usize = isize::MAX as usize;
    if len <= max && offset <= (max - len) as u64 {
        Some(offset as usize + len)
    } else {
        None
    }
}

impl Memory {
    pub closed spec fn valid(self) -> bool {
        &&& distinct(pairs(self.slots@))
        &&& forall|i: int| 0 <= i < self.slots@.len() ==> (#[trigger] self.slots@[i]).blobs.valid()
    }

    /// Storage without partitions.
    pub fn new() -> (memory: Self)
        ensures
            memory.valid(),
            memory@ == Volume::empty(),
    {
        let memory = Memory { slots: Vec::new(), files: Vec::new() };
        assert(memory@ =~= Volume::empty());
        memory
    }

    /// Where a partition stands, if there is one of that name.
    fn find(&self, partition: &String) -> (found: Option<usize>)
        requires
            self.valid(),
        ensures
            match found {
                Some(at) => at < self.slots@.len() && self.slots@[at as int].name@ == partition@
                    && self@.partitions.dom().contains(partition@) && self@.partitions[partition@]
                    == self.slots@[at as int].blobs@,
                None => !has_key(pairs(self.slots@), partition@)
                    && !self@.partitions.dom().contains(partition@),
            },
    {
        let ghost all = pairs(self.slots@);
        let mut at: usize = 0;
        while at < self.slots.len()
            invariant
                at <= self.slots@.len(),
                all == pairs(self.slots@),
                distinct(all),
                forall|i: int| 0 <= i < at ==> (#[trigger] self.slots@[i]).name@ != partition@,
            decreases self.slots@.len() - at,
        {
            if self.slots[at].name.eq(partition) {
                proof {
                    lemma_lookup(all, at as int);
                }
                return Some(at);
            }
            at += 1;
        }
        proof {
            if has_key(all, partition@) {
                let i = position(all, partition@);
                assert(self.slots@[i].name@ == partition@);
            }
        }
        None
    }

    /// Opens a blob, and creates it and its partition if they are missing.
    pub fn open(&mut self, partition: &str, name: &[u8]) -> (id: usize)
        requires
            old(self).valid(),
        ensures
            final(self).valid(),
            final(self)@ == old(self)@.open(partition@, name@),
            id == old(self)@.descriptors.len(),
    {
        let key = partition.to_string();
        let at = match self.find(&key) {
            Some(at) => at,
            None => {
                let slot = Slot { name: partition.to_string(), blobs: Partition::new() };
                let at = self.slots.len();
                proof {
                    let all = pairs(self.slots@);
                    lemma_insert(all, at as int, partition@, Blobs::empty());
                    assert(pairs(self.slots@.push(slot)) =~= all.insert(
                        at as int,
                        (partition@, Blobs::empty()),
                    ));
                    lemma_lookup(pairs(self.slots@.push(slot)), at as int);
                }
                self.slots.push(slot);
                at
            },
        };
        let ghost slots = self.slots@;
        let contents = self.slots[at].blobs.open(name);
        proof {
            let all = pairs(slots);
            let blobs = self.slots@[at as int].blobs@;
            lemma_update(all, at as int, blobs);
            assert(pairs(self.slots@) =~= all.update(at as int, (partition@, blobs)));
        }
        let id = self.files.len();
        self.files.push(File { partition: key, name: copy(name), contents, open: true });
        proof {
            assert(self@.partitions =~= opened_in(old(self)@.partitions, partition@, name@));
            assert(self@.descriptors =~= old(self)@.open(partition@, name@).descriptors);
        }
        id
    }

    /// The length of an open blob.
    pub fn len(&self, id: usize) -> (len: u64)
        requires
            id < self@.descriptors.len(),
        ensures
            len == self@.descriptors[id as int].contents.len(),
    {
        self.files[id].contents.len() as u64
    }

    /// Fills `buf` from an open blob.
    pub fn read_at(&self, id: usize, buf: &mut [u8], offset: u64) -> (result: Result<(), Error>)
        requires
            id < self@.descriptors.len(),
        ensures
            result is Ok <==> offset + old(buf)@.len() <= self@.descriptors[id as int].contents.len(),
            result == Err::<(), Error>(Error::OffsetOverflow) <==> offset + old(buf)@.len()
                > self@.descriptors[id as int].contents.len() && offset + old(buf)@.len() > isize::MAX,
            result == Err::<(), Error>(Error::BlobInsufficientLength) <==> self@.descriptors[id as int].contents.len() < offset
                + old(buf)@.len() <= isize::MAX,
            result is Ok ==> forall|i: int|
                0 <= i < old(buf)@.len() ==> #[trigger] final(buf)@[i] == self@.descriptors[id as int].contents[offset + i],
            ({
                let contents = self@.descriptors[id as int].contents;
                let len = old(buf)@.len();
                match result {
                    Ok(()) => readable(contents, offset as nat, len) && final(buf)@ == read(
                        contents,
                        offset as nat,
                        len,
                    ),
                    Err(Error::OffsetOverflow) => !addressable(offset as nat, len) && final(buf)@
                        == old(buf)@,
                    Err(Error::BlobInsufficientLength) => addressable(offset as nat, len)
                        && !readable(contents, offset as nat, len) && final(buf)@ == old(buf)@,
                    Err(_) => false,
                }
            }),
    {
        let len: usize = buf.len();
        let contents = &self.files[id].contents;
        if offset > contents.len() as u64 || len > contents.len() - offset as usize {
            return match end_of(offset, len) {
                Some(_) => Err(Error::BlobInsufficientLength),
                None => Err(Error::OffsetOverflow),
            };
        }
        let start: usize = offset as usize;
        let mut i: usize = 0;
        while i < len
            invariant
                i <= len == buf@.len(),
                len == old(buf)@.len(),
                start + len <= contents@.len() == contents.len(),
                forall|j: int| 0 <= j < i ==> buf@[j] == contents@[start + j],
            decreases len - i,
        {
            buf[i] = contents[start + i];
            i += 1;
        }
        assert(buf@ =~= read(contents@, offset as nat, len as nat));
        Ok(())
    }

    /// Writes to an open blob.
    pub fn write_at(&mut self, id: usize, buf: &[u8], offset: u64) -> (result: Result<(), Error>)
        requires
            old(self).valid(),
            id < old(self)@.descriptors.len(),
        ensures
            final(self).valid(),
            offset + buf@.len() <= isize::MAX ==> result is Ok,
            offset + buf@.len() > isize::MAX ==> result == Err::<(), Error>(Error::OffsetOverflow),
            match result {
                Ok(()) => addressable(offset as nat, buf@.len()) && final(self)@
                    == old(self)@.write(id, offset as nat, buf@),
                Err(error) => error == Error::OffsetOverflow && !addressable(
                    offset as nat,
                    buf@.len(),
                ) && final(self)@ == old(self)@,
            },
    {
        let len: usize = buf.len();
        let end = match end_of(offset, len) {
            Some(end) => end,
            None => return Err(Error::OffsetOverflow),
        };
        let start: usize = end - len;
        let contents = &mut self.files[id].contents;
        let ghost before = contents@;
        if end > contents.len() {
            contents.resize(end, 0);
        }
        let ghost grown = contents@;
        assert forall|j: int| 0 <= j < grown.len() implies #[trigger] grown[j] == (if j
            < before.len() {
            before[j]
        } else {
            0
        }) by {
            if j < before.len() && before.len() < end {
                assert(grown.subrange(0, before.len() as int)[j] == before[j]);
            }
        }
        let mut i: usize = 0;
        while i < len
            invariant
                i <= len == buf@.len(),
                start + len == end <= contents@.len(),
                contents@.len() == grown.len(),
                forall|j: int|
                    0 <= j < grown.len() ==> #[trigger] contents@[j] == (if start <= j < start + i {
                        buf@[j - start]
                    } else {
                        grown[j]
                    }),
            decreases len - i,
        {
            contents.set(start + i, buf[i]);
            i += 1;
        }
        assert(contents@ =~= written(before, offset as nat, buf@));
        assert(self@ =~= old(self)@.write(id, offset as nat, buf@));
        Ok(())
    }

    /// Cuts the end of an open blob off.
    pub fn truncate(&mut self, id: usize, len: u64)
        requires
            old(self).valid(),
            id < old(self)@.descriptors.len(),
        ensures
            final(self).valid(),
            final(self)@ == old(self)@.truncate(id, len as nat),
    {
        let contents = &mut self.files[id].contents;
        let ghost before = contents@;
        if len < contents.len() as u64 {
            contents.truncate(len as usize);
        }
        assert(contents@ =~= truncated(before, len as nat));
        assert(self@ =~= old(self)@.truncate(id, len as nat));
    }

    /// Makes the pending data of an open blob durable.
    pub fn sync(&mut self, id: usize) -> (result: Result<(), Error>)
        requires
            old(self).valid(),
            id < old(self)@.descriptors.len(),
        ensures
            final(self).valid(),
            final(self)@ == old(self)@.sync(id),
            match result {
                Ok(()) => old(self)@.persisted(id) is Some,
                Err(error) => old(self)@.persisted(id) is None && says_missing(
                    error,
                    old(self)@.partitions,
                    old(self)@.descriptors[id as int].partition,
                    Some(old(self)@.descriptors[id as int].name),
                ),
            },
    {
        let partition = self.files[id].partition.clone();
        match self.find(&partition) {
            None => Err(Error::PartitionMissing(partition)),
            Some(at) => {
                let name = copy(self.files[id].name.as_slice());
                let contents = copy(self.files[id].contents.as_slice());
                let ghost slots = self.slots@;
                let found = self.slots[at].blobs.store(name.as_slice(), contents);
                proof {
                    let all = pairs(slots);
                    let blobs = self.slots@[at as int].blobs@;
                    lemma_update(all, at as int, blobs);
                    assert(pairs(self.slots@) =~= all.update(at as int, (partition@, blobs)));
                    assert(self@.partitions =~= old(self)@.sync(id).partitions);
                }
                if found {
                    Ok(())
                } else {
                    Err(Error::BlobMissing(partition, hex(name.as_slice())))
                }
            },
        }
    }

    /// Syncs a blob, which is no longer open.
    pub fn close(&mut self, id: usize) -> (result: Result<(), Error>)
        requires
            old(self).valid(),
            id < old(self)@.descriptors.len(),
        ensures
            final(self).valid(),
            final(self)@ == old(self)@.close(id),
            match result {
                Ok(()) => old(self)@.persisted(id) is Some,
                Err(error) => old(self)@.persisted(id) is None && says_missing(
                    error,
                    old(self)@.partitions,
                    old(self)@.descriptors[id as int].partition,
                    Some(old(self)@.descriptors[id as int].name),
                ),
            },
    {
        let result = self.sync(id);
        self.files[id].open = false;
        assert(self@ =~= old(self)@.close(id));
        result
    }

    /// Removes a blob or, if no name is given, a whole partition.
    pub fn remove(&mut self, partition: &str, name: Option<&[u8]>) -> (result: Result<(), Error>)
        requires
            old(self).valid(),
        ensures
            final(self).valid(),
            final(self)@ == old(self)@.remove(partition@, name_of(name)),
            match result {
                Ok(()) => exists_in(old(self)@.partitions, partition@, name_of(name)),
                Err(error) => !exists_in(old(self)@.partitions, partition@, name_of(name))
                    && says_missing(error, old(self)@.partitions, partition@, name_of(name)),
            },
    {
        let key = partition.to_string();
        let at = match self.find(&key) {
            None => return Err(Error::PartitionMissing(key)),
            Some(at) => at,
        };
        let ghost slots = self.slots@;
        let ghost all = pairs(slots);
        match name {
            None => {
                self.slots.remove(at);
                proof {
                    lemma_remove(all, at as int);
                    assert(pairs(self.slots@) =~= all.remove(at as int));
                }
                Ok(())
            },
            Some(name) => {
                let found = self.slots[at].blobs.remove(name);
                proof {
                    let blobs = self.slots@[at as int].blobs@;
                    lemma_update(all, at as int, blobs);
                    assert(pairs(self.slots@) =~= all.update(at as int, (partition@, blobs)));
                    assert(self@.partitions =~= old(self)@.remove(partition@, Some(name@)).partitions);
                }
                if found {
                    Ok(())
                } else {
                    Err(Error::BlobMissing(key, hex(name)))
                }
            },
        }
    }

    /// Lists the blobs of a partition, in the order of their names.
    pub fn scan(&self, partition: &str) -> (result: Result<Vec<Vec<u8>>, Error>)
        requires
            self.valid(),
        ensures
            match result {
                Ok(names) => {
                    &&& self@.partitions.dom().contains(partition@)
                    &&& lists(names@, self@.partitions[partition@])
                    &&& forall|i: int, j: int|
                        0 <= i < j < names@.len() ==> before(
                            (#[trigger] names@[i])@,
                            (#[trigger] names@[j])@,
                        )
                },
                Err(error) => !self@.partitions.dom().contains(partition@) && says_missing(
                    error,
                    self@.partitions,
                    partition@,
                    None,
                ),
            },
    {
        let key = partition.to_string();
        match self.find(&key) {
            None => Err(Error::PartitionMissing(key)),
            Some(at) => Ok(self.slots[at].blobs.names()),
        }
    }

    /// How many blobs are open.
    pub fn open_blobs(&self) -> (count: usize)
        ensures
            count == count_open(self@.descriptors),
    {
        let ghost all = self@.descriptors;
        let mut count: usize = 0;
        let mut i: usize = 0;
        while i < self.files.len()
            invariant
                i <= self.files@.len(),
                all == self@.descriptors,
                count <= i,
                count == count_open(all.take(i as int)),
            decreases self.files@.len() - i,
        {
            assert(all.take(i + 1).drop_last() =~= all.take(i as int));
            assert(all.take(i + 1).last() == self.files@[i as int].descriptor());
            if self.files[i].open {
                count += 1;
            }
            i += 1;
        }
        assert(all.take(i as int) =~= all);
        count
    }
}

/// A blob that is opened again holds what was synced or closed.
pub proof fn law_synced_data_is_there_on_reopening(volume: Volume, id: usize)
    requires
        id < volume.descriptors.len(),
        volume.persisted(id) is Some,
    ensures
        ({
            let blob = volume.descriptors[id as int];
            &&& volume.sync(id).open(blob.partition, blob.name).descriptors.last().contents
                == blob.contents
            &&& volume.close(id).open(blob.partition, blob.name).descriptors.last().contents
                == blob.contents
            &&& volume.sync(id).persisted(id) == Some(blob.contents)
        }),
{
}

/// Until it is synced, what is written to an open blob is seen through that blob alone.
pub proof fn law_pending_data_is_private(
    volume: Volume,
    id: usize,
    offset: nat,
    data: Seq<u8>,
    other: usize,
)
    requires
        id < volume.descriptors.len(),
        other < volume.descriptors.len(),
    ensures
        volume.write(id, offset, data).partitions == volume.partitions,
        other != id ==> volume.write(id, offset, data).descriptors[other as int]
            == volume.descriptors[other as int],
        volume.truncate(id, offset).partitions == volume.partitions,
        other != id ==> volume.truncate(id, offset).descriptors[other as int]
            == volume.descriptors[other as int],
{
}

/// Syncing or closing a blob leaves what is durable of every other blob alone, and the bytes of
/// every open one.
pub proof fn law_sync_leaves_other_blobs_alone(
    volume: Volume,
    id: usize,
    partition: Seq<char>,
    name: Seq<u8>,
    other: usize,
)
    requires
        id < volume.descriptors.len(),
        other < volume.descriptors.len(),
        (partition, name) != (
            volume.descriptors[id as int].partition,
            volume.descriptors[id as int].name,
        ),
    ensures
        stored(volume.sync(id).partitions, partition, name) == stored(
            volume.partitions,
            partition,
            name,
        ),
        stored(volume.close(id).partitions, partition, name) == stored(
            volume.partitions,
            partition,
            name,
        ),
        volume.sync(id).descriptors == volume.descriptors,
        volume.close(id).descriptors[other as int].contents
            == volume.descriptors[other as int].contents,
{
}

/// A blob that is removed while it is open can still be read, but no longer be synced.
pub proof fn law_removed_blob_cannot_be_synced(volume: Volume, id: usize)
    requires
        id < volume.descriptors.len(),
        volume.persisted(id) is Some,
    ensures
        ({
            let blob = volume.descriptors[id as int];
            let after = volume.remove(blob.partition, Some(blob.name));
            &&& after.descriptors == volume.descriptors
            &&& after.persisted(id) is None
            &&& after.sync(id) == after
        }),
{
}

/// Opening a blob and closing it again leaves as many blobs open as before.
pub proof fn law_open_blobs_are_counted(volume: Volume, partition: Seq<char>, name: Seq<u8>)
    ensures
        count_open(volume.open(partition, name).descriptors) == count_open(volume.descriptors) + 1,
        volume.descriptors.len() <= usize::MAX ==> count_open(
            volume.open(partition, name).close(volume.descriptors.len() as usize).descriptors,
        ) == count_open(volume.descriptors),
{
    let opened = volume.open(partition, name);
    assert(opened.descriptors.drop_last() =~= volume.descriptors);
    if volume.descriptors.len() <= usize::MAX {
        let closed = opened.close(volume.descriptors.len() as usize);
        assert(closed.descriptors.drop_last() =~= volume.descriptors);
    }
}

/// Bytes can be addressed as long as their end is a length that a vector of bytes can have.
pub proof fn law_every_length_of_a_vector_is_addressable(offset: nat, len: nat)
    ensures
        addressable(offset, len) <==> offset + len <= isize::MAX,
{
}

/// Opening a blob adds an open one under that name, with the bytes that are stored, or none if it
/// is new; the blobs that were opened before are left alone.
pub proof fn law_opening_only_adds_a_blob(volume: Volume, partition: Seq<char>, name: Seq<u8>)
    ensures
        ({
            let after = volume.open(partition, name);
            let blob = after.descriptors[volume.descriptors.len() as int];
            &&& after.descriptors.len() == volume.descriptors.len() + 1
            &&& blob.partition == partition
            &&& blob.name == name
            &&& blob.open
            &&& volume.partitions.dom().contains(partition)
                && volume.partitions[partition].dom().contains(name) ==> blob.contents
                == volume.partitions[partition][name]
            &&& !volume.partitions.dom().contains(partition)
                || !volume.partitions[partition].dom().contains(name) ==> blob.contents.len() == 0
            &&& forall|i: int|
                0 <= i < volume.descriptors.len() ==> #[trigger] after.descriptors[i]
                    == volume.descriptors[i]
        }),
        volume.open(partition, name).partitions == opened_in(volume.partitions, partition, name),
{
}

/// Whether nothing but the bytes of one open blob differs.
pub open spec fn differs_only_in_bytes(before: Volume, after: Volume, id: usize) -> bool {
    &&& after.partitions == before.partitions
    &&& after.descriptors.len() == before.descriptors.len()
    &&& forall|i: int|
        0 <= i < before.descriptors.len() && i != id ==> #[trigger] after.descriptors[i]
            == before.descriptors[i]
    &&& after.descriptors[id as int].partition == before.descriptors[id as int].partition
    &&& after.descriptors[id as int].name == before.descriptors[id as int].name
    &&& after.descriptors[id as int].open == before.descriptors[id as int].open
}

/// Writing and truncating change the bytes of that open blob, and nothing else.
pub proof fn law_writing_changes_one_blob(
    volume: Volume,
    id: usize,
    offset: nat,
    data: Seq<u8>,
    len: nat,
)
    requires
        id < volume.descriptors.len(),
    ensures
        differs_only_in_bytes(volume, volume.write(id, offset, data), id),
        differs_only_in_bytes(volume, volume.truncate(id, len), id),
        volume.write(id, offset, data).descriptors[id as int].contents == written(
            volume.descriptors[id as int].contents,
            offset,
            data,
        ),
        volume.truncate(id, len).descriptors[id as int].contents == truncated(
            volume.descriptors[id as int].contents,
            len,
        ),
{
}

/// Syncing stores the bytes of an open blob under its name, unless that blob was removed; it
/// changes no other stored blob, adds and removes none, and changes no open one. Closing does the
/// same, and that blob is no longer open.
pub proof fn law_syncing_stores_one_blob(
    volume: Volume,
    id: usize,
    partition: Seq<char>,
    name: Seq<u8>,
    other: int,
)
    requires
        id < volume.descriptors.len(),
        0 <= other < volume.descriptors.len(),
    ensures
        ({
            let blob = volume.descriptors[id as int];
            let synced = volume.sync(id);
            let closed = volume.close(id);
            let there = volume.partitions.dom().contains(partition)
                && volume.partitions[partition].dom().contains(name);
            &&& synced.partitions.dom() == volume.partitions.dom()
            &&& volume.partitions.dom().contains(partition) ==> (
            synced.partitions[partition].dom().contains(name)
                <==> volume.partitions[partition].dom().contains(name))
            &&& there && (partition, name) == (blob.partition, blob.name)
                ==> synced.partitions[partition][name] == blob.contents
            &&& there && (partition, name) != (blob.partition, blob.name)
                ==> synced.partitions[partition][name] == volume.partitions[partition][name]
            &&& synced.descriptors == volume.descriptors
            &&& closed.partitions == synced.partitions
            &&& closed.descriptors.len() == volume.descriptors.len()
            &&& !closed.descriptors[id as int].open
            &&& closed.descriptors[id as int].contents == blob.contents
            &&& closed.descriptors[id as int].partition == blob.partition
            &&& closed.descriptors[id as int].name == blob.name
            &&& other != id ==> closed.descriptors[other] == volume.descriptors[other]
        }),
{
    assert(volume.sync(id).partitions.dom() =~= volume.partitions.dom());
}

/// What is durable of an open blob is what is stored under its name.
pub proof fn law_persisted_is_what_is_stored(volume: Volume, id: usize)
    requires
        id < volume.descriptors.len(),
    ensures
        ({
            let blob = volume.descriptors[id as int];
            let there = volume.partitions.dom().contains(blob.partition)
                && volume.partitions[blob.partition].dom().contains(blob.name);
            &&& volume.persisted(id) is Some <==> there
            &&& there ==> volume.persisted(id) == Some(
                volume.partitions[blob.partition][blob.name],
            )
        }),
{
}

/// Removing takes away the blob or the partition that is named, if it is there, and nothing else;
/// blobs that are open stay so, with their bytes.
pub proof fn law_removing_takes_away_just_what_is_named(
    volume: Volume,
    partition: Seq<char>,
    name: Seq<u8>,
    other_partition: Seq<char>,
    other: Seq<u8>,
)
    ensures
        ({
            let one = volume.remove(partition, Some(name));
            let all = volume.remove(partition, None);
            let there = volume.partitions.dom().contains(other_partition)
                && volume.partitions[other_partition].dom().contains(other);
            &&& one.descriptors == volume.descriptors
            &&& all.descriptors == volume.descriptors
            &&& one.partitions.dom().contains(other_partition)
                <==> volume.partitions.dom().contains(other_partition)
            &&& one.partitions.dom().contains(other_partition) ==> (
            one.partitions[other_partition].dom().contains(other) <==> there && (
            other_partition,
            other,
        ) != (partition, name))
            &&& there && (other_partition, other) != (partition, name)
                ==> one.partitions[other_partition][other]
                == volume.partitions[other_partition][other]
            &&& all.partitions.dom().contains(other_partition) <==> other_partition != partition
                && volume.partitions.dom().contains(other_partition)
            &&& all.partitions.dom().contains(other_partition)
                ==> all.partitions[other_partition] == volume.partitions[other_partition]
        }),
{
}

/// The count of open blobs is that of the blobs that were opened and not closed.
pub proof fn law_count_is_of_what_is_open(descriptors: Seq<Descriptor>)
    ensures
        count_open(descriptors) == descriptors.filter(|blob: Descriptor| blob.open).len(),
    decreases descriptors.len(),
{
    reveal(Seq::filter);
    if descriptors.len() > 0 {
        law_count_is_of_what_is_open(descriptors.drop_last());
    }
}

/// An error that something is missing says that the partition is, if it is, and otherwise that the
/// blob is, whose name it gives in hexadecimal.
pub proof fn law_missing_is_told_apart(
    error: Error,
    partitions: Map<Seq<char>, Blobs>,
    partition: Seq<char>,
    name: Option<Seq<u8>>,
)
    requires
        says_missing(error, partitions, partition, name),
    ensures
        !partitions.dom().contains(partition) ==> error.text() == "partition missing: "@
            + partition,
        partitions.dom().contains(partition) ==> name is Some && error.text() == "blob missing: "@
            + partition + "/"@ + hex_of(name->0),
{
    match error {
        Error::PartitionMissing(p) => {
            crate::error::law_error_names_what_it_is_about(p, p);
        },
        Error::BlobMissing(p, n) => {
            crate::error::law_error_names_what_it_is_about(p, n);
        },
        _ => {},
    }
}

} // verus!
