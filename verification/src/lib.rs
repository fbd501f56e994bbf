//! An immutable, on-disk key-value container: a `Writer` appends opaque
//! byte blobs under integer or string keys and finishes the byte stream
//! with an index ("trailer") and an 8-byte footer; a `Reader` decodes the
//! trailer once and answers lookups with byte-slice views into the data.

pub mod codec;
pub mod format;
pub mod laws;
pub mod reader;
pub mod writer;

pub use reader::Reader;
pub use reader::ReaderOptions;
pub use writer::Writer;
