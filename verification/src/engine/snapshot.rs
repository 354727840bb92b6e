//! Snapshot bytes: their compression, and the errors of saving and
//! loading snapshots.
use vstd::prelude::*;
use vstd::string::StringExecFns;

verus! {

/// Errors that can occur during snapshot operations.
#[derive(Debug, Clone)]
pub enum SnapshotError {
    Serialize(String),
    Deserialize(String),
    Compress(String),
    Decompress(String),
    Io(String),
}

/// The message of a snapshot error: a prefix naming the stage, then the detail.
pub open spec fn snapshot_error_text(e: SnapshotError) -> Seq<char> {
    match e {
        SnapshotError::Serialize(d) => "serialize error: "@ + d@,
        SnapshotError::Deserialize(d) => "deserialize error: "@ + d@,
        SnapshotError::Compress(d) => "compression error: "@ + d@,
        SnapshotError::Decompress(d) => "decompression error: "@ + d@,
        SnapshotError::Io(d) => "IO error: "@ + d@,
    }
}

impl SnapshotError {
    /// The human-readable message of this error.
    pub fn message(&self) -> (m: String)
        ensures
            m@ == snapshot_error_text(*self),
    {
        let (prefix, detail) = match self {
            SnapshotError::Serialize(d) => ("serialize error: ", d),
            SnapshotError::Deserialize(d) => ("deserialize error: ", d),
            SnapshotError::Compress(d) => ("compression error: ", d),
            SnapshotError::Decompress(d) => ("decompression error: ", d),
            SnapshotError::Io(d) => ("IO error: ", d),
        };
        let mut m = String::from_str(prefix);
        m.append(detail.as_str());
        m
    }
}

/// An I/O error of std, carried opaquely.
#[verifier::external_type_specification]
#[verifier::external_body]
pub struct ExIoError(std::io::Error);

/// The compression level of snapshot files.
pub const SNAPSHOT_COMPRESSION_LEVEL: i32 = 3;

/// The zstd frame that `zstd::encode_all` makes of `raw` at `level`.
pub uninterp spec fn zstd_compressed(raw: Seq<u8>, level: i32) -> Seq<u8>;

/// Compress bytes into a zstd frame.
///
/// Trusted: calls `zstd::encode_all` of `zstd`, which reads the whole input
/// and returns the frame zstd's encoder makes of it at the given level, a
/// function of the input and the level. It succeeds: it reads from a slice
/// and writes into a `Vec`, neither of which fails, and the encoder clamps
/// the level into its range.
#[verifier::external_body]
fn zstd_encode(raw: &[u8], level: i32) -> (r: Result<Vec<u8>, std::io::Error>)
    ensures
        r is Ok,
        r matches Ok(c) ==> c@ == zstd_compressed(raw@, level),
{
    zstd::encode_all(raw, level)
}

/// Decompress a zstd frame.
///
/// Trusted: calls `zstd::decode_all` of `zstd`, whose compression is
/// lossless: a frame made by `zstd::encode_all` decodes to the bytes it was
/// made of. Of other input, nothing is claimed (it may fail or decode to
/// anything).
#[verifier::external_body]
fn zstd_decode(data: &[u8]) -> (r: Result<Vec<u8>, std::io::Error>)
    ensures
        r is Ok || !exists|raw: Seq<u8>, level: i32| data@ == #[trigger] zstd_compressed(raw, level),
        r matches Ok(d) ==> forall|raw: Seq<u8>, level: i32|
            data@ == #[trigger] zstd_compressed(raw, level) ==> d@ == raw,
{
    zstd::decode_all(data)
}

/// The text of an I/O error.
///
/// Trusted: calls `ToString::to_string` on a `std::io::Error`, whose text
/// std does not fix; nothing is claimed of it.
#[verifier::external_body]
fn io_error_text(e: &std::io::Error) -> String {
    e.to_string()
}

/// Compress the serialized bytes of a snapshot at the snapshot compression
/// level: always the zstd frame of the bytes (a failure of the compressor
/// would be a `Compress` error, but there is none).
pub fn compress_snapshot(raw: &[u8]) -> (r: Result<Vec<u8>, SnapshotError>)
    ensures
        r is Ok,
        r matches Ok(c) ==> c@ == zstd_compressed(raw@, SNAPSHOT_COMPRESSION_LEVEL),
{
    match zstd_encode(raw, SNAPSHOT_COMPRESSION_LEVEL) {
        Ok(c) => Ok(c),
        Err(e) => Err(SnapshotError::Compress(io_error_text(&e))),
    }
}

/// Decompress the bytes of a snapshot file; a failure of the decompressor
/// is a `Decompress` error. Bytes that compression made give back exactly
/// the bytes they were made of.
pub fn decompress_snapshot(data: &[u8]) -> (r: Result<Vec<u8>, SnapshotError>)
    ensures
        forall|raw: Seq<u8>, level: i32|
            data@ == #[trigger] zstd_compressed(raw, level) ==> (r matches Ok(d) && d@ == raw),
        r matches Err(e) ==> e is Decompress,
{
    match zstd_decode(data) {
        Ok(d) => Ok(d),
        Err(e) => Err(SnapshotError::Decompress(io_error_text(&e))),
    }
}

} // verus!
