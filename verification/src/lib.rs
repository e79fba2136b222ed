//! An embedded read-only resource filesystem.
//!
//! A build-time generator serializes an in-memory directory tree into a flat,
//! handle-addressable metadata table plus one contiguous data blob; a runtime
//! component resolves paths against that table and reads file contents back,
//! transparently decompressing entries that the generator chose to compress.

pub mod bytes;
pub mod gen;
pub mod laws;
pub mod model;
pub mod rt;
pub mod tree;
pub mod zlib;

pub use gen::generate;
pub use gen::id_ok;
pub use model::Entry;
pub use model::ErfsHandle;
pub use model::ErfsRoot;
pub use model::FsError;
pub use model::FLAG_COMPRESSED;
pub use model::FLAG_DIR;
pub use model::OPT_AUX_BINDINGS;
pub use model::OPT_COMPRESS;
pub use model::ROOT_HANDLE;
pub use rt::entry_flags;
pub use rt::entry_name;
pub use rt::entry_size;
pub use rt::open;
pub use rt::read;
pub use rt::read_dir;
pub use rt::read_file;
pub use rt::traverse;
pub use tree::forest_check;
pub use tree::sort_children;
pub use tree::SrcNode;
