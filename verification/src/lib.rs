//! An access-controlled document registry.
//!
//! Every user owns a catalog that counts their documents. Each document
//! carries an encrypted content locator and a list of per-recipient access
//! grants. Only the owner of a document may share it, revoke a grant or
//! close it.
//!
//! `records` holds the stored data and its invariants, `instructions` the
//! transitions on records that have already been loaded, `clock` the
//! reading of the ledger's time, and `registry` a keyed store that loads the
//! records, applies a transition and stores the outcome.

pub mod clock;
pub mod error;
pub mod identity;
pub mod instructions;
pub mod records;
pub mod registry;

pub use error::{DocumentError, InstructionError};
pub use identity::Identity;
pub use instructions::{
    add_document, add_document_at, close_document, initialize, revoke_access, share_document,
    share_document_at, AddDocument, CloseDocument, Initialize, RevokeAccess, ShareDocument,
};
pub use records::{Document, SharedWith, UserDocuments};
pub use registry::Registry;
