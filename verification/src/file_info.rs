//! The record kept for every discovered file.

use crate::hasher::{content_digest, hash_bytes, ContentHasher};
use std::path::PathBuf;
use vstd::prelude::*;

verus! {

/// `std::path::PathBuf`, carried through as an opaque value.
#[verifier::external_type_specification]
#[verifier::external_body]
pub struct ExPathBuf(PathBuf);

/// Trusted of `PathBuf::clone`: the copy is the same path.
pub assume_specification[ <PathBuf as Clone>::clone ](path: &PathBuf) -> (copy: PathBuf)
    ensures
        copy == *path,
;

/// Mathematical view of a [`FileInfo`].
pub struct FileRecord {
    pub path: PathBuf,
    pub size: u64,
    pub hash: Option<Seq<char>>,
}

/// A discovered file: where it is, how many bytes it holds and, once
/// computed, the digest of its content.
#[derive(Debug, Clone)]
pub struct FileInfo {
    pub path: PathBuf,
    pub size: u64,
    pub hash: Option<String>,
}

impl View for FileInfo {
    type V = FileRecord;

    open spec fn view(&self) -> FileRecord {
        FileRecord {
            path: self.path,
            size: self.size,
            hash: match self.hash {
                Some(h) => Some(h@),
                None => None,
            },
        }
    }
}

/// The views of a sequence of records, in order.
pub open spec fn records(files: Seq<FileInfo>) -> Seq<FileRecord> {
    Seq::new(files.len(), |i: int| files[i]@)
}

/// The file at `path` could not be read, so it has no digest.
#[derive(Debug)]
pub struct HashError {
    pub path: PathBuf,
}

impl FileInfo {
    /// A record for the file at `path` holding `size` bytes, digest not yet computed.
    pub fn new(path: PathBuf, size: u64) -> (file: Self)
        ensures
            file.path == path,
            file.size == size,
            file.hash is None,
    {
        Self { path, size, hash: None }
    }

    /// The digest of the file, computed at most once.
    ///
    /// A record that already holds a digest returns it and ignores `content`.
    /// Otherwise `content` is what reading the file gave: its bytes, or
    /// `None` when it could not be read. The bytes are hashed and the digest
    /// is kept; a failed read leaves the record without one.
    pub fn calculate_hash(&mut self, content: Option<&[u8]>) -> (result: Result<&str, HashError>)
        ensures
            final(self).path == old(self).path,
            final(self).size == old(self).size,
            old(self).hash is Some ==> final(self).hash == old(self).hash,
            old(self).hash is None ==> final(self)@.hash == match content {
                Some(bytes) => Some(content_digest(bytes@)),
                None => None,
            },
            match result {
                Ok(digest) => final(self)@.hash == Some(digest@),
                Err(error) => final(self).hash is None && error.path == old(self).path,
            },
    {
        if self.hash.is_none() {
            match content {
                Some(bytes) => {
                    self.hash = Some(hash_bytes(bytes));
                },
                None => {
                    return Err(HashError { path: self.path.clone() });
                },
            }
        }
        match &self.hash {
            Some(digest) => Ok(digest.as_str()),
            None => Err(HashError { path: self.path.clone() }),
        }
    }

    /// The digest of the file, computed at most once, for a caller that
    /// streams the file through a hasher of its own.
    ///
    /// A record that already holds a digest returns it and ignores
    /// `streamed`. Otherwise `streamed` is the hasher that was fed the whole
    /// file, or `None` when the file could not be read to its end; its digest
    /// is kept, and a failed read leaves the record without one.
    pub fn calculate_hash_streamed(&mut self, streamed: Option<&ContentHasher>) -> (result: Result<
        &str,
        HashError,
    >)
        ensures
            final(self).path == old(self).path,
            final(self).size == old(self).size,
            old(self).hash is Some ==> final(self).hash == old(self).hash,
            old(self).hash is None ==> final(self)@.hash == match streamed {
                Some(hasher) => Some(content_digest(hasher@)),
                None => None,
            },
            match result {
                Ok(digest) => final(self)@.hash == Some(digest@),
                Err(error) => final(self).hash is None && error.path == old(self).path,
            },
    {
        if self.hash.is_none() {
            match streamed {
                Some(hasher) => {
                    self.hash = Some(hasher.finish());
                },
                None => {
                    return Err(HashError { path: self.path.clone() });
                },
            }
        }
        match &self.hash {
            Some(digest) => Ok(digest.as_str()),
            None => Err(HashError { path: self.path.clone() }),
        }
    }
}

} // verus!
