//! Word-frequency indexing: turns document text into a table of normalized
//! word counts, ranks a table's entries, and keeps tables by document title.

pub mod backend;
pub mod rank;
pub mod store;
pub mod table;
pub mod tokenize;
