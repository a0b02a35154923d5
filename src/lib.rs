//! Compiles a line-oriented `[[key]]` / value text format into an immutable
//! lookup table keyed by the 64-bit hash of each key, and merges several such
//! tables with first-table-wins precedence.

pub mod error;
pub mod text;
pub mod sanitizer;
pub mod scanner;
pub mod store;
pub mod parser;
pub mod merge;
pub mod document;
pub mod table;

pub use error::{FindEntryError, MergeTableError, ParseR3Error};
pub use merge::merge_locale_table_rust;
pub use parser::{insert_into_hashtable, parse_r3locale_bytes};
pub use sanitizer::sanitize_r3_locale_file;
pub use store::TableEntry;
pub use table::LocaleTable;
