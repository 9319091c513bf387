use commonware_runtime::Error;

#[test]
fn messages() {
    let p = || "part".to_string();
    let n = || "name".to_string();
    let expected = [
        (Error::Exited, "exited"),
        (Error::Closed, "closed"),
        (Error::Timeout, "timeout"),
        (Error::BindFailed, "bind failed"),
        (Error::ConnectionFailed, "connection failed"),
        (Error::WriteFailed, "write failed"),
        (Error::ReadFailed, "read failed"),
        (Error::SendFailed, "send failed"),
        (Error::RecvFailed, "recv failed"),
        (
            Error::PartitionCreationFailed(p()),
            "partition creation failed: part",
        ),
        (Error::PartitionMissing(p()), "partition missing: part"),
        (Error::PartitionCorrupt(p()), "partition corrupt: part"),
        (Error::BlobOpenFailed(p(), n()), "blob open failed: part/name"),
        (Error::BlobMissing(p(), n()), "blob missing: part/name"),
        (
            Error::BlobTruncateFailed(p(), n()),
            "blob truncate failed: part/name",
        ),
        (Error::BlobSyncFailed(p(), n()), "blob sync failed: part/name"),
        (
            Error::BlobCloseFailed(p(), n()),
            "blob close failed: part/name",
        ),
        (Error::BlobInsufficientLength, "blob insufficient length"),
        (Error::OffsetOverflow, "offset overflow"),
    ];
    for (error, message) in expected {
        assert_eq!(error.message(), message);
    }
}
