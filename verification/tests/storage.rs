use commonware_runtime::deterministic::Executor;
use commonware_runtime::{Blob, Error, Metrics, Runner, Shared, Spawner, Storage};

fn test_storage_operations<R: Shared, C: Storage<R>>(runner: impl Runner, context: C, runtime: R) {
    runner.start(move || {
        let mut runtime = runtime;
        let partition = "test_partition";
        let name = b"test_blob";

        // Open a new blob
        let blob = context
            .open(&mut runtime, partition, name)
            .expect("Failed to open blob");

        // Write data to the blob
        let data = b"Hello, Storage!";
        blob.write_at(&mut runtime, data, 0)
            .expect("Failed to write to blob");

        // Sync the blob
        blob.sync(&mut runtime).expect("Failed to sync blob");

        // Read data from the blob
        let mut buffer = vec![0u8; data.len()];
        blob.read_at(&runtime, &mut buffer, 0)
            .expect("Failed to read from blob");
        assert_eq!(&buffer, data);

        // Get blob length
        let length = blob.len(&runtime).expect("Failed to get blob length");
        assert_eq!(length, data.len() as u64);

        // Close the blob
        blob.close(&mut runtime).expect("Failed to close blob");

        // Scan blobs in the partition
        let blobs = context
            .scan(&runtime, partition)
            .expect("Failed to scan partition");
        assert!(blobs.contains(&name.to_vec()));

        // Reopen the blob
        let blob = context
            .open(&mut runtime, partition, name)
            .expect("Failed to reopen blob");

        // Read data part of message back
        let mut buffer = vec![0u8; 7];
        blob.read_at(&runtime, &mut buffer, 7)
            .expect("Failed to read data");
        assert_eq!(&buffer, b"Storage");

        // Close the blob
        blob.close(&mut runtime).expect("Failed to close blob");

        // Remove the blob
        context
            .remove(&mut runtime, partition, Some(name))
            .expect("Failed to remove blob");

        // Ensure the blob is removed
        let blobs = context
            .scan(&runtime, partition)
            .expect("Failed to scan partition");
        assert!(!blobs.contains(&name.to_vec()));

        // Remove the partition
        context
            .remove(&mut runtime, partition, None)
            .expect("Failed to remove partition");

        // Scan the partition
        let result = context.scan(&runtime, partition);
        assert!(matches!(result, Err(Error::PartitionMissing(_))));
    });
}

#[test]
fn test_deterministic_storage_operations() {
    let (executor, context, runtime) = Executor::default();
    test_storage_operations(executor, context, runtime);
}

fn test_blob_read_write<R: Shared, C: Storage<R>>(runner: impl Runner, context: C, runtime: R) {
    runner.start(move || {
        let mut runtime = runtime;
        let partition = "test_partition";
        let name = b"test_blob_rw";

        // Open a new blob
        let blob = context
            .open(&mut runtime, partition, name)
            .expect("Failed to open blob");

        // Write data at different offsets
        let data1 = b"Hello";
        let data2 = b"World";
        blob.write_at(&mut runtime, data1, 0)
            .expect("Failed to write data1");
        blob.write_at(&mut runtime, data2, 5)
            .expect("Failed to write data2");

        // Assert that length tracks pending data
        let length = blob.len(&runtime).expect("Failed to get blob length");
        assert_eq!(length, 10);

        // Read data back
        let mut buffer = vec![0u8; 10];
        blob.read_at(&runtime, &mut buffer, 0)
            .expect("Failed to read data");
        assert_eq!(&buffer[..5], data1);
        assert_eq!(&buffer[5..], data2);

        // Rewrite data without affecting length
        let data3 = b"Store";
        blob.write_at(&mut runtime, data3, 5)
            .expect("Failed to write data3");
        let length = blob.len(&runtime).expect("Failed to get blob length");
        assert_eq!(length, 10);

        // Truncate the blob
        blob.truncate(&mut runtime, 5)
            .expect("Failed to truncate blob");
        let length = blob.len(&runtime).expect("Failed to get blob length");
        assert_eq!(length, 5);
        let mut buffer = vec![0u8; 5];
        blob.read_at(&runtime, &mut buffer, 0)
            .expect("Failed to read data");
        assert_eq!(&buffer[..5], data1);

        // Full read after truncation
        let mut buffer = vec![0u8; 10];
        let result = blob.read_at(&runtime, &mut buffer, 0);
        assert!(matches!(result, Err(Error::BlobInsufficientLength)));

        // Close the blob
        blob.close(&mut runtime).expect("Failed to close blob");
    });
}

fn test_many_partition_read_write<R: Shared, C: Storage<R>>(
    runner: impl Runner,
    context: C,
    runtime: R,
) {
    runner.start(move || {
        let mut runtime = runtime;
        let partitions = ["partition1", "partition2", "partition3"];
        let name = b"test_blob_rw";

        for (additional, partition) in partitions.iter().enumerate() {
            // Open a new blob
            let blob = context
                .open(&mut runtime, partition, name)
                .expect("Failed to open blob");

            // Write data at different offsets
            let data1 = b"Hello";
            let data2 = b"World";
            blob.write_at(&mut runtime, data1, 0)
                .expect("Failed to write data1");
            blob.write_at(&mut runtime, data2, 5 + additional as u64)
                .expect("Failed to write data2");

            // Close the blob
            blob.close(&mut runtime).expect("Failed to close blob");
        }

        for (additional, partition) in partitions.iter().enumerate() {
            // Open a new blob
            let blob = context
                .open(&mut runtime, partition, name)
                .expect("Failed to open blob");

            // Read data back
            let mut buffer = vec![0u8; 10 + additional];
            blob.read_at(&runtime, &mut buffer, 0)
                .expect("Failed to read data");
            assert_eq!(&buffer[..5], b"Hello");
            assert_eq!(&buffer[5 + additional..], b"World");

            // Close the blob
            blob.close(&mut runtime).expect("Failed to close blob");
        }
    });
}

fn test_blob_read_past_length<R: Shared, C: Storage<R>>(
    runner: impl Runner,
    context: C,
    runtime: R,
) {
    runner.start(move || {
        let mut runtime = runtime;
        let partition = "test_partition";
        let name = b"test_blob_rw";

        // Open a new blob
        let blob = context
            .open(&mut runtime, partition, name)
            .expect("Failed to open blob");

        // Read data past file length (empty file)
        let mut buffer = vec![0u8; 10];
        let result = blob.read_at(&runtime, &mut buffer, 0);
        assert!(matches!(result, Err(Error::BlobInsufficientLength)));

        // Write data to the blob
        let data = b"Hello, Storage!";
        blob.write_at(&mut runtime, data, 0)
            .expect("Failed to write to blob");

        // Read data past file length (non-empty file)
        let mut buffer = vec![0u8; 20];
        let result = blob.read_at(&runtime, &mut buffer, 0);
        assert!(matches!(result, Err(Error::BlobInsufficientLength)));
    })
}

fn test_blob_clone_and_concurrent_read<R, C>(runner: impl Runner, context: C, runtime: &mut R)
where
    R: Shared,
    C: Spawner<R> + Storage<R> + Metrics<R>,
{
    runner.start(move || {
        let partition = "test_partition";
        let name = b"test_blob_rw";

        // Open a new blob
        let blob = context
            .open(runtime, partition, name)
            .expect("Failed to open blob");

        // Write data to the blob
        let data = b"Hello, Storage!";
        blob.write_at(runtime, data, 0)
            .expect("Failed to write to blob");

        // Sync the blob
        blob.sync(runtime).expect("Failed to sync blob");

        // Read data from the blob in clone
        let mut check1 = context.with_label("check1").spawn::<()>(runtime).1;
        let mut check2 = context.with_label("check2").spawn::<()>(runtime).1;
        for check in [&mut check1, &mut check2] {
            let blob = blob.clone();
            check.run(|| {
                let mut buffer = vec![0u8; data.len()];
                blob.read_at(runtime, &mut buffer, 0)
                    .expect("Failed to read from blob");
                assert_eq!(&buffer, data);
            });
        }

        // Wait for both reads to complete
        assert!(check1.join().unwrap().is_ok());
        assert!(check2.join().unwrap().is_ok());

        // Read data from the blob
        let mut buffer = vec![0u8; data.len()];
        blob.read_at(runtime, &mut buffer, 0)
            .expect("Failed to read from blob");
        assert_eq!(&buffer, data);

        // Get blob length
        let length = blob.len(runtime).expect("Failed to get blob length");
        assert_eq!(length, data.len() as u64);

        // Close the blob
        blob.close(runtime).expect("Failed to close blob");
    });
}

#[test]
fn test_deterministic_blob_read_write() {
    let (executor, context, runtime) = Executor::default();
    test_blob_read_write(executor, context, runtime);
}

#[test]
fn test_deterministic_many_partition_read_write() {
    let (executor, context, runtime) = Executor::default();
    test_many_partition_read_write(executor, context, runtime);
}

#[test]
fn test_deterministic_blob_read_past_length() {
    let (executor, context, runtime) = Executor::default();
    test_blob_read_past_length(executor, context, runtime);
}

#[test]
fn test_deterministic_blob_clone_and_concurrent_read() {
    // Run test
    let (executor, context, mut runtime) = Executor::default();
    test_blob_clone_and_concurrent_read(executor, context.clone(), &mut runtime);

    // Ensure no blobs still open
    let buffer = context.encode(&runtime);
    assert!(buffer.contains("open_blobs 0"));
}

#[test]
fn clone_shares_what_a_second_open_does_not() {
    let (_, context, mut runtime) = Executor::default();
    let first = context.open(&mut runtime, "p", b"n").unwrap();
    let clone = first.clone();
    let second = context.open(&mut runtime, "p", b"n").unwrap();
    first.write_at(&mut runtime, b"abc", 0).unwrap();

    // The clone sees the pending data, the second instance does not
    assert_eq!(clone.len(&runtime), Ok(3));
    assert_eq!(second.len(&runtime), Ok(0));
    assert_eq!(context.open(&mut runtime, "p", b"n").unwrap().len(&runtime), Ok(0));

    // Once synced, it is there on reopening
    clone.sync(&mut runtime).unwrap();
    let third = context.open(&mut runtime, "p", b"n").unwrap();
    let mut buffer = [0u8; 3];
    third.read_at(&runtime, &mut buffer, 0).unwrap();
    assert_eq!(&buffer, b"abc");
}

#[test]
fn gap_before_a_write_is_filled_with_zeros() {
    let (_, context, mut runtime) = Executor::default();
    let blob = context.open(&mut runtime, "p", b"n").unwrap();
    blob.write_at(&mut runtime, b"ab", 3).unwrap();
    let mut buffer = [9u8; 5];
    blob.read_at(&runtime, &mut buffer, 0).unwrap();
    assert_eq!(&buffer, &[0, 0, 0, b'a', b'b']);
}

#[test]
fn write_leaves_the_rest_alone() {
    let (_, context, mut runtime) = Executor::default();
    let blob = context.open(&mut runtime, "p", b"n").unwrap();
    blob.write_at(&mut runtime, b"abcdef", 0).unwrap();
    blob.write_at(&mut runtime, b"XY", 2).unwrap();
    let mut buffer = [0u8; 6];
    blob.read_at(&runtime, &mut buffer, 0).unwrap();
    assert_eq!(&buffer, b"abXYef");
}

#[test]
fn disjoint_writes_commute() {
    let (_, context, mut runtime) = Executor::default();
    let one = context.open(&mut runtime, "p", b"1").unwrap();
    let two = context.open(&mut runtime, "p", b"2").unwrap();
    one.write_at(&mut runtime, b"ab", 0).unwrap();
    one.write_at(&mut runtime, b"cd", 4).unwrap();
    two.write_at(&mut runtime, b"cd", 4).unwrap();
    two.write_at(&mut runtime, b"ab", 0).unwrap();
    let mut from_one = [0u8; 6];
    let mut from_two = [1u8; 6];
    one.read_at(&runtime, &mut from_one, 0).unwrap();
    two.read_at(&runtime, &mut from_two, 0).unwrap();
    assert_eq!(from_one, from_two);
    assert_eq!(&from_one, b"ab\0\0cd");
}

#[test]
fn offsets_past_any_blob_overflow() {
    let (_, context, mut runtime) = Executor::default();
    let blob = context.open(&mut runtime, "p", b"n").unwrap();
    let mut buffer = [7u8; 2];
    assert_eq!(
        blob.read_at(&runtime, &mut buffer, u64::MAX),
        Err(Error::OffsetOverflow)
    );
    assert_eq!(buffer, [7, 7]);
    assert_eq!(
        blob.write_at(&mut runtime, b"a", u64::MAX),
        Err(Error::OffsetOverflow)
    );
    assert_eq!(blob.len(&runtime), Ok(0));
}

#[test]
fn reads_up_to_the_end_succeed() {
    let (_, context, mut runtime) = Executor::default();
    let blob = context.open(&mut runtime, "p", b"n").unwrap();
    blob.write_at(&mut runtime, b"abc", 0).unwrap();
    let mut buffer = [0u8; 1];
    blob.read_at(&runtime, &mut buffer, 2).unwrap();
    assert_eq!(&buffer, b"c");
    let mut empty = [0u8; 0];
    blob.read_at(&runtime, &mut empty, 3).unwrap();
    assert_eq!(
        blob.read_at(&runtime, &mut buffer, 3),
        Err(Error::BlobInsufficientLength)
    );
}

#[test]
fn truncation_never_extends() {
    let (_, context, mut runtime) = Executor::default();
    let blob = context.open(&mut runtime, "p", b"n").unwrap();
    blob.write_at(&mut runtime, b"abc", 0).unwrap();
    blob.truncate(&mut runtime, 10).unwrap();
    assert_eq!(blob.len(&runtime), Ok(3));
    blob.truncate(&mut runtime, u64::MAX).unwrap();
    assert_eq!(blob.len(&runtime), Ok(3));
    blob.truncate(&mut runtime, 0).unwrap();
    assert_eq!(blob.len(&runtime), Ok(0));
}

#[test]
fn scan_is_in_the_order_of_names() {
    let (_, context, mut runtime) = Executor::default();
    for name in [b"b".to_vec(), b"".to_vec(), b"ab".to_vec(), b"a".to_vec(), vec![0xff]] {
        context.open(&mut runtime, "p", &name).unwrap();
    }
    context.open(&mut runtime, "p", b"a").unwrap();
    assert_eq!(
        context.scan(&runtime, "p"),
        Ok(vec![
            b"".to_vec(),
            b"a".to_vec(),
            b"ab".to_vec(),
            b"b".to_vec(),
            vec![0xff]
        ])
    );
}

#[test]
fn missing_partitions_and_blobs_are_told_apart() {
    let (_, context, mut runtime) = Executor::default();
    assert_eq!(
        context.remove(&mut runtime, "p", None),
        Err(Error::PartitionMissing("p".to_string()))
    );
    assert_eq!(
        context.remove(&mut runtime, "p", Some(b"n")),
        Err(Error::PartitionMissing("p".to_string()))
    );
    context.open(&mut runtime, "p", b"m").unwrap();
    assert_eq!(
        context.remove(&mut runtime, "p", Some(&[0x0a, 0xf1])),
        Err(Error::BlobMissing("p".to_string(), "0af1".to_string()))
    );

    // The last blob can go without its partition
    context.remove(&mut runtime, "p", Some(b"m")).unwrap();
    assert_eq!(context.scan(&runtime, "p"), Ok(vec![]));
}

#[test]
fn removed_blob_can_be_read_but_not_synced() {
    let (_, context, mut runtime) = Executor::default();
    let blob = context.open(&mut runtime, "p", b"n").unwrap();
    let other = context.open(&mut runtime, "p", b"o").unwrap();
    blob.write_at(&mut runtime, b"abc", 0).unwrap();
    other.write_at(&mut runtime, b"kept", 0).unwrap();
    other.sync(&mut runtime).unwrap();
    context.remove(&mut runtime, "p", Some(b"n")).unwrap();
    let mut buffer = [0u8; 3];
    blob.read_at(&runtime, &mut buffer, 0).unwrap();
    assert_eq!(&buffer, b"abc");
    assert_eq!(
        blob.sync(&mut runtime),
        Err(Error::BlobMissing("p".to_string(), "6e".to_string()))
    );

    // Opened again, it is empty; the other blob is untouched
    assert_eq!(context.open(&mut runtime, "p", b"n").unwrap().len(&runtime), Ok(0));
    assert_eq!(context.open(&mut runtime, "p", b"o").unwrap().len(&runtime), Ok(4));
    context.remove(&mut runtime, "p", None).unwrap();
    assert_eq!(
        blob.close(&mut runtime),
        Err(Error::PartitionMissing("p".to_string()))
    );
}
