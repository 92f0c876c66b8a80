//! Error kinds surfaced by the storage engine.

use vstd::prelude::*;

verus! {

/// The failure kinds an engine operation can report.
///
/// Creation of something that is already on disk or already tracked reports
/// `AlreadyExists` (databases, table files) or `TableAlreadyExists` /
/// `KeyAlreadyExists` (tracked names, keys); lookups of absent entities report
/// `NotFound`, `TableNotFound` or `KeyNotFound`; a table file whose content
/// does not deserialize as a key/value mapping reports `CorruptData`.
/// `IoFailure` is reserved for callers that drive the engine against a real
/// volume and hit a filesystem fault; no in-memory operation produces it.
#[derive(Clone, Copy, Debug, PartialEq, Eq, Structural)]
pub enum DbError {
    AlreadyExists,
    NotFound,
    CorruptData,
    IoFailure,
    TableAlreadyExists,
    TableNotFound,
    KeyAlreadyExists,
    KeyNotFound,
}

} // verus!
