//! A minimal embedded key-value store: a database is a directory, each table
//! a single file holding one serialized string-keyed mapping.
//!
//! The engine is verified against an in-memory model of the backing volume
//! (`Disk`); a thin runner outside the library mirrors that model onto a real
//! filesystem. Serialization goes through an external JSON codec.


mod base;
mod codec;
mod errors;
mod names;
mod table;
mod value;
mod volume;

pub use base::{distinct_names, lemma_added_table_loads_empty, spec_add_table, DbBase};
pub use codec::{entries_model, keys_distinct, table_decoding, table_encoding};
pub use errors::DbError;
pub use names::{
    file_name_view, lemma_stem_of_file_name, lemma_stem_view_inverse, stem_view, table_file_name,
    table_stem,
};
pub use table::{
    lemma_add_present_rejected, lemma_add_then_get, lemma_load_deterministic,
    lemma_remove_then_get, lemma_update_absent_rejected, spec_add, spec_get, spec_load,
    spec_remove, spec_update, DbTable,
};
pub use value::{DbValue, DbValueView};
pub use volume::{lemma_listing_member, Disk};
