//! A deterministic manifest of a directory tree.
//!
//! The crate holds the rules of the manifest: how a path becomes a key, which
//! paths a set of glob patterns excludes, how file content is fingerprinted,
//! how the entries are ordered and counted, and what a walk over the tree has
//! to do next. Reading directories and files is left to the caller, who hands
//! in what was read and receives the tasks that follow from it.

pub mod hashing;
pub mod fingerprint;
pub mod text;
pub mod path;
pub mod order;
pub mod time;
pub mod tree;
pub mod summary;
pub mod globs;
pub mod options;
pub mod walk;

pub use fingerprint::{
    bufcopy, concat_hash, serialize_concat_hash, ConcatHash, ConcatHasherToWriteAdapter, CopyStep,
    ReadOutcome, MEBI,
};
pub use options::{dedup_patterns, Options, PatternError};
pub use path::{
    compare_paths, is_under_prefix, normalize_path, same_text, InvalidPathEncoding, PathOrder,
};
pub use summary::Summary;
pub use tree::{serialize_date_time, DirEntry, DirTree, ModTime, Node, SymlinkMetaData};
pub use walk::{
    record_file, record_symlink, visit_dir_tree, visit_entry, EntryKind, RawEntry, Task,
};
