//! Read-only access to the files of a zip archive held as one value of a
//! key-value store: an index of the archive's entries, hierarchical listing
//! over it, and the planning of byte-range reads.
//!
//! Names are handled as UTF-8 bytes; their order is byte-wise lexicographic,
//! which is the order of `str`.

mod keys;
mod order;
mod index;
mod ranges;
pub mod laws;

pub use order::name_le;
pub use index::{ArchiveEntry, EntryKind, EntryView, IndexError, IndexedKey, ListDir, ZipIndex};

pub use keys::{
    immediate_child_prefix, key_parent, strip_zip_path_prefix, validate_key, validate_prefix,
};


pub use ranges::{
    calculate_data_offset, check_decompressed_len, range_is_valid, read_len, slice_ranges,
    translate_stored_ranges, validate_ranges, ByteRange, ReadError,
};
