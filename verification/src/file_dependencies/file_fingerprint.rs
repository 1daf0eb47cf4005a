//! Fingerprints of single files.

use fasthash::MetroHasher;
use std::hash::Hasher;
use vstd::prelude::*;
use vstd::string::StringExecFns;

verus! {

/// What identifies the state of a file: its modification time where the filesystem
/// reports one, else a hash of its contents. The two kinds never compare equal.
#[derive(Debug, Clone, Copy, PartialEq, Eq, Hash, Structural)]
pub enum FileFingerprint {
    /// Time of the last modification: how far it lies from the Unix epoch, in seconds
    /// and nanoseconds, and on which side.
    ModifiedTime { before_epoch: bool, secs: u64, nanos: u32 },
    /// 64-bit MetroHash of the whole contents.
    Hash(u64),
}

/// Why a path has no fingerprint.
#[derive(Debug)]
pub enum Fingerprint {
    /// Reading the path's metadata or contents failed; `source` is the system's message.
    PathError { path: String, source: String },
    /// The path is a directory.
    DirectoryError { path: String },
}

/// What the filesystem reports of an existing path.
#[derive(Debug, Clone, Copy)]
pub struct FileMetadata {
    pub is_dir: bool,
    /// Time of the last modification: whether it lies before the Unix epoch, and how far
    /// from it in seconds and nanoseconds; `None` where the filesystem reports none.
    pub modified: Option<(bool, u64, u32)>,
}

/// Where fingerprinting stands after the metadata has been looked at.
#[derive(Debug)]
pub enum FingerprintStep {
    /// The metadata settled it.
    Done(Result<FileFingerprint, Fingerprint>),
    /// No modification time is known: the contents have to be read and hashed.
    ReadContents,
}

/// The 64-bit MetroHash of `bytes`, as `fasthash`'s `MetroHasher` computes it from a
/// fresh state.
pub uninterp spec fn metro_hash64(bytes: Seq<u8>) -> u64;

/// Hashes `bytes` with `fasthash::MetroHasher`: one `write` of all the bytes into a
/// default hasher, then `finish`. Trusted: the result is named, nothing more is claimed.
#[verifier::external_body]
fn metro_hash(bytes: &[u8]) -> (hash: u64)
    ensures
        hash == metro_hash64(bytes@),
{
    let mut hasher = MetroHasher::default();
    hasher.write(bytes);
    hasher.finish()
}

impl FileFingerprint {
    /// First step of fingerprinting `path`, from the outcome of reading its metadata:
    /// a failure and a directory are errors, a known modification time is the
    /// fingerprint, and without one the contents are asked for.
    pub fn from_metadata(path: &String, metadata: Result<FileMetadata, String>) -> (step:
        FingerprintStep)
        ensures
            match metadata {
                Err(message) => (step matches FingerprintStep::Done(
                    Err(Fingerprint::PathError { path: p, source }),
                ) && p@ == path@ && source@ == message@),
                Ok(found) => if found.is_dir {
                    (step matches FingerprintStep::Done(Err(Fingerprint::DirectoryError { path: p }))
                        && p@ == path@)
                } else {
                    match found.modified {
                        Some((before_epoch, secs, nanos)) => step == FingerprintStep::Done(
                            Ok(FileFingerprint::ModifiedTime { before_epoch, secs, nanos }),
                        ),
                        None => step is ReadContents,
                    }
                },
            },
    {
        match metadata {
            Err(message) => FingerprintStep::Done(
                Err(Fingerprint::PathError { path: path.clone(), source: message }),
            ),
            Ok(found) => {
                if found.is_dir {
                    FingerprintStep::Done(Err(Fingerprint::DirectoryError { path: path.clone() }))
                } else {
                    match found.modified {
                        Some((before_epoch, secs, nanos)) => FingerprintStep::Done(
                            Ok(FileFingerprint::ModifiedTime { before_epoch, secs, nanos }),
                        ),
                        None => FingerprintStep::ReadContents,
                    }
                }
            },
        }
    }

    /// Second step of fingerprinting `path`, from the outcome of reading its contents:
    /// the hash of all the bytes, or the read failure.
    pub fn from_contents(path: &String, contents: Result<Vec<u8>, String>) -> (res: Result<
        FileFingerprint,
        Fingerprint,
    >)
        ensures
            match contents {
                Ok(bytes) => res == Ok::<FileFingerprint, Fingerprint>(
                    FileFingerprint::Hash(metro_hash64(bytes@)),
                ),
                Err(message) => (res matches Err(Fingerprint::PathError { path: p, source }) && p@
                    == path@ && source@ == message@),
            },
    {
        match contents {
            Ok(bytes) => Ok(FileFingerprint::Hash(metro_hash(bytes.as_slice()))),
            Err(message) => Err(Fingerprint::PathError { path: path.clone(), source: message }),
        }
    }
}

impl Fingerprint {
    /// The error as a sentence that names the path.
    pub fn message(&self) -> (text: String)
        ensures
            match *self {
                Fingerprint::PathError { path, .. } => text@
                    == "Failed to create dependency from path: "@ + path@,
                Fingerprint::DirectoryError { path } => text@ == "The supplied path "@ + path@
                    + " contains a directory"@,
            },
    {
        match self {
            Fingerprint::PathError { path, .. } => {
                String::from_str("Failed to create dependency from path: ").concat(path.as_str())
            },
            Fingerprint::DirectoryError { path } => {
                String::from_str("The supplied path ").concat(path.as_str()).concat(
                    " contains a directory",
                )
            },
        }
    }
}

} // verus!
