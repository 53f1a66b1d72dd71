//! The local file system as a file source.
use std::path::{Path, PathBuf};
use vstd::prelude::*;
use crate::error::{buf_as_path, path_of, PreviewError};

verus! {

/// File source backed by the local filesystem, rooted at a canonical
/// directory.
pub struct LocalSource {
    base: PathBuf,
}

impl LocalSource {
    /// The source for a requested root, given what canonicalizing that root
    /// gave: the canonical path, or `None` when it does not exist. A missing
    /// root is `FileNotFound` naming the requested path.
    pub fn from_canonical(requested: PathBuf, canonical: Option<PathBuf>) -> (r: Result<
        Self,
        PreviewError,
    >)
        ensures
            match canonical {
                Some(c) => r matches Ok(s) && s.base_path() == c,
                None => r matches Err(e) && e == PreviewError::FileNotFound(requested),
            },
    {
        match canonical {
            Some(c) => Ok(LocalSource { base: c }),
            None => Err(PreviewError::FileNotFound(requested)),
        }
    }

    /// The canonical root of this source.
    pub closed spec fn base_path(&self) -> PathBuf {
        self.base
    }

    /// The canonical root of this source.
    pub fn base(&self) -> (r: &Path)
        ensures
            r == buf_as_path(&self.base_path()),
    {
        path_of(&self.base)
    }
}

} // verus!
