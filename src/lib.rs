//! An audit log of file edits made by an editing agent, with selective undo.
//!
//! Edits are recorded per conversation. Rejecting an edit rebuilds the
//! affected file from its baseline by replaying the surviving edits in order.

pub mod entry;
pub mod order;
pub mod lineage;
pub mod replay;
pub mod fingerprint;
pub mod lock;
pub mod status;
pub mod query;
pub mod log_store;
