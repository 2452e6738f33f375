//! A codec and browser for a legacy flat-archive container format: encode
//! a directory tree into one obfuscated archive file, decode such a file
//! back into its entries and payloads, and navigate the archive's virtual
//! directory hierarchy, which its backslash-delimited flat names only
//! imply, with shell-like path resolution and wildcard filtering.
use vstd::prelude::*;

pub mod bytes;
pub mod chars;
pub mod collect;
pub mod crypt;
pub mod errors;
pub mod gbk;
pub mod glob;
pub mod laws;
pub mod order;
pub mod pack;
pub mod pak;
pub mod paths;
pub mod repl;

pub use bytes::read_u32_le;
pub use bytes::read_u64_le;
pub use collect::build_file_infos;
pub use crypt::crypt_data;
pub use crypt::detect_encryption;
pub use errors::FormatError;
pub use errors::InputError;
pub use glob::glob_match;
pub use glob::matches_glob_pattern;
pub use pack::encode_pak;
pub use pack::extract_payloads;
pub use pak::parse_pak_info;
pub use pak::read_string_by_u8_head;
pub use pak::write_string_by_u8_head;
pub use pak::FileInfo;
pub use pak::PakInfo;
pub use repl::PakFileSystem;

verus! {

} // verus!
