//! What can go wrong when interacting with a runtime.
use vstd::prelude::*;

verus! {

/// Errors that can occur when interacting with the runtime.
#[derive(Debug, PartialEq)]
pub enum Error {
    Exited,
    Closed,
    Timeout,
    BindFailed,
    ConnectionFailed,
    WriteFailed,
    ReadFailed,
    SendFailed,
    RecvFailed,
    PartitionCreationFailed(String),
    PartitionMissing(String),
    PartitionCorrupt(String),
    BlobOpenFailed(String, String),
    BlobMissing(String, String),
    BlobTruncateFailed(String, String),
    BlobSyncFailed(String, String),
    BlobCloseFailed(String, String),
    BlobInsufficientLength,
    OffsetOverflow,
}

/// `what`, a colon, and the partition it happened to.
pub open spec fn about_partition(what: Seq<char>, partition: Seq<char>) -> Seq<char> {
    what + ": "@ + partition
}

/// `what`, a colon, and the path of the blob it happened to.
pub open spec fn about_blob(what: Seq<char>, partition: Seq<char>, name: Seq<char>) -> Seq<char> {
    what + ": "@ + partition + "/"@ + name
}

impl Error {
    /// The text of the error.
    pub open spec fn text(&self) -> Seq<char> {
        match self {
            Error::Exited => "exited"@,
            Error::Closed => "closed"@,
            Error::Timeout => "timeout"@,
            Error::BindFailed => "bind failed"@,
            Error::ConnectionFailed => "connection failed"@,
            Error::WriteFailed => "write failed"@,
            Error::ReadFailed => "read failed"@,
            Error::SendFailed => "send failed"@,
            Error::RecvFailed => "recv failed"@,
            Error::PartitionCreationFailed(p) => about_partition("partition creation failed"@, p@),
            Error::PartitionMissing(p) => about_partition("partition missing"@, p@),
            Error::PartitionCorrupt(p) => about_partition("partition corrupt"@, p@),
            Error::BlobOpenFailed(p, n) => about_blob("blob open failed"@, p@, n@),
            Error::BlobMissing(p, n) => about_blob("blob missing"@, p@, n@),
            Error::BlobTruncateFailed(p, n) => about_blob("blob truncate failed"@, p@, n@),
            Error::BlobSyncFailed(p, n) => about_blob("blob sync failed"@, p@, n@),
            Error::BlobCloseFailed(p, n) => about_blob("blob close failed"@, p@, n@),
            Error::BlobInsufficientLength => "blob insufficient length"@,
            Error::OffsetOverflow => "offset overflow"@,
        }
    }

    /// Renders the error for a reader.
    pub fn message(&self) -> (message: String)
        ensures
            message@ == self.text(),
    {
        match self {
            Error::Exited => "exited".to_string(),
            Error::Closed => "closed".to_string(),
            Error::Timeout => "timeout".to_string(),
            Error::BindFailed => "bind failed".to_string(),
            Error::ConnectionFailed => "connection failed".to_string(),
            Error::WriteFailed => "write failed".to_string(),
            Error::ReadFailed => "read failed".to_string(),
            Error::SendFailed => "send failed".to_string(),
            Error::RecvFailed => "recv failed".to_string(),
            Error::PartitionCreationFailed(p) => partition_message("partition creation failed", p),
            Error::PartitionMissing(p) => partition_message("partition missing", p),
            Error::PartitionCorrupt(p) => partition_message("partition corrupt", p),
            Error::BlobOpenFailed(p, n) => blob_message("blob open failed", p, n),
            Error::BlobMissing(p, n) => blob_message("blob missing", p, n),
            Error::BlobTruncateFailed(p, n) => blob_message("blob truncate failed", p, n),
            Error::BlobSyncFailed(p, n) => blob_message("blob sync failed", p, n),
            Error::BlobCloseFailed(p, n) => blob_message("blob close failed", p, n),
            Error::BlobInsufficientLength => "blob insufficient length".to_string(),
            Error::OffsetOverflow => "offset overflow".to_string(),
        }
    }
}

fn partition_message(what: &str, partition: &str) -> (message: String)
    ensures
        message@ == about_partition(what@, partition@),
{
    let mut message = what.to_string();
    message.append(": ");
    message.append(partition);
    message
}

fn blob_message(what: &str, partition: &str, name: &str) -> (message: String)
    ensures
        message@ == about_blob(what@, partition@, name@),
{
    let mut message = partition_message(what, partition);
    message.append("/");
    message.append(name);
    message
}

/// The text of an error about a partition or a blob says what happened, and to which.
pub proof fn law_error_names_what_it_is_about(p: String, n: String)
    ensures
        Error::PartitionCreationFailed(p).text() == "partition creation failed: "@ + p@,
        Error::PartitionMissing(p).text() == "partition missing: "@ + p@,
        Error::PartitionCorrupt(p).text() == "partition corrupt: "@ + p@,
        Error::BlobOpenFailed(p, n).text() == "blob open failed: "@ + p@ + "/"@ + n@,
        Error::BlobMissing(p, n).text() == "blob missing: "@ + p@ + "/"@ + n@,
        Error::BlobTruncateFailed(p, n).text() == "blob truncate failed: "@ + p@ + "/"@ + n@,
        Error::BlobSyncFailed(p, n).text() == "blob sync failed: "@ + p@ + "/"@ + n@,
        Error::BlobCloseFailed(p, n).text() == "blob close failed: "@ + p@ + "/"@ + n@,
{
    reveal_strlit(": ");
    reveal_strlit("partition creation failed");
    reveal_strlit("partition creation failed: ");
    reveal_strlit("partition missing");
    reveal_strlit("partition missing: ");
    reveal_strlit("partition corrupt");
    reveal_strlit("partition corrupt: ");
    reveal_strlit("blob open failed");
    reveal_strlit("blob open failed: ");
    reveal_strlit("blob missing");
    reveal_strlit("blob missing: ");
    reveal_strlit("blob truncate failed");
    reveal_strlit("blob truncate failed: ");
    reveal_strlit("blob sync failed");
    reveal_strlit("blob sync failed: ");
    reveal_strlit("blob close failed");
    reveal_strlit("blob close failed: ");
    assert("partition creation failed"@ + ": "@ =~= "partition creation failed: "@);
    assert("partition missing"@ + ": "@ =~= "partition missing: "@);
    assert("partition corrupt"@ + ": "@ =~= "partition corrupt: "@);
    assert("blob open failed"@ + ": "@ =~= "blob open failed: "@);
    assert("blob missing"@ + ": "@ =~= "blob missing: "@);
    assert("blob truncate failed"@ + ": "@ =~= "blob truncate failed: "@);
    assert("blob sync failed"@ + ": "@ =~= "blob sync failed: "@);
    assert("blob close failed"@ + ": "@ =~= "blob close failed: "@);
}

} // verus!
