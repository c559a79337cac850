//! Binary package table of the flag storage files: a fixed header, a hash
//! bucket index and a list of variable-length package nodes chained by byte
//! offsets, with a bit-exact encoder and decoder for each part.

pub mod bytes;
pub mod chains;
pub mod hashing;
pub mod package_table;
pub mod proofs;

pub use bytes::{read_str_from_bytes, read_u32_from_bytes, ParseError};
pub use hashing::{bucket_from_hash, get_bucket_index, get_table_size};
pub use package_table::{PackageTable, PackageTableHeader, PackageTableNode};
