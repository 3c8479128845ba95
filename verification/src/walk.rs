//! The filters that decide what in a directory tree is worth indexing. The
//! traversal itself happens outside, on the filesystem.

use vstd::prelude::*;

verus! {

/// Five mebibytes: larger files are skipped outright, before being opened.
pub const DEFAULT_MAX_FILE_SIZE: u64 = 5 * 1024 * 1024;

pub struct WalkOptions {
    /// Files above this size, in bytes, are skipped outright.
    pub max_file_size: u64,
    pub follow_symlinks: bool,
    /// When non-empty, only files matching one of these globs are considered.
    pub include_globs: Vec<String>,
    pub exclude: Vec<String>,
    pub respect_gitignore: bool,
}

impl Default for WalkOptions {
    fn default() -> (o: Self)
        ensures
            o.max_file_size == DEFAULT_MAX_FILE_SIZE,
            !o.follow_symlinks,
            o.include_globs@.len() == 0,
            o.exclude@.len() == 0,
            o.respect_gitignore,
    {
        WalkOptions {
            max_file_size: DEFAULT_MAX_FILE_SIZE,
            follow_symlinks: false,
            include_globs: Vec::new(),
            exclude: Vec::new(),
            respect_gitignore: true,
        }
    }
}

impl WalkOptions {
    /// Whether a file of `size` bytes is skipped for its size alone.
    pub fn too_large(&self, size: u64) -> (b: bool)
        ensures
            b == (size > self.max_file_size),
    {
        size > self.max_file_size
    }
}

/// What the walk passed over, and why.
#[derive(Debug, Clone, Copy, PartialEq, Eq)]
pub struct WalkStats {
    pub too_large: usize,
    /// Entries the walker could not stat or read; reported, never fatal.
    pub unreadable: usize,
}

impl Default for WalkStats {
    fn default() -> (s: Self)
        ensures
            s.too_large == 0,
            s.unreadable == 0,
    {
        WalkStats { too_large: 0, unreadable: 0 }
    }
}

} // verus!
