//! The record of a single edit and the two closed sets it draws from.
use vstd::prelude::*;

verus! {

/// Review state of an edit. The only field of a record that changes once written.
#[derive(Clone, Copy, Debug, PartialEq, Eq, Structural)]
pub enum Status {
    Pending,
    Accepted,
    Rejected,
}

/// What an edit did to its file.
#[derive(Clone, Copy, Debug, PartialEq, Eq, Structural)]
pub enum Operation {
    Create,
    Replace,
    Edit,
    Delete,
    Move,
    /// An operation kind this version does not know; replay skips it.
    Unknown,
}

/// One record of the conversation log.
#[derive(Clone, Debug)]
pub struct LogEntry {
    pub edit_id: String,
    pub conversation_id: String,
    /// Sequence number within the conversation; breaks ties between equal timestamps.
    pub tool_call_index: u64,
    pub timestamp: String,
    pub operation: Operation,
    /// The path the operation acts on, after the operation (the destination of a move).
    pub file_path: String,
    /// The path before a move.
    pub source_path: Option<String>,
    pub tool_name: String,
    pub status: Status,
    /// Diff artifact, relative to the history root.
    pub diff_file: Option<String>,
    /// Full snapshot of the file before this edit, relative to the history root.
    pub checkpoint_file: Option<String>,
    pub hash_before: Option<String>,
    pub hash_after: Option<String>,
}

/// The characters of an optional string.
pub open spec fn opt_view(o: Option<String>) -> Option<Seq<char>> {
    match o {
        Some(s) => Some(s@),
        None => None,
    }
}

/// Copies an optional string.
pub fn clone_opt(o: &Option<String>) -> (r: Option<String>)
    ensures
        r == *o,
{
    match o {
        Some(s) => Some(s.clone()),
        None => None,
    }
}

/// Compares two optional strings by their characters.
pub fn opt_eq(a: &Option<String>, b: &Option<String>) -> (r: bool)
    ensures
        r == (opt_view(*a) == opt_view(*b)),
{
    match (a, b) {
        (Some(x), Some(y)) => *x == *y,
        (None, None) => true,
        _ => false,
    }
}

impl LogEntry {
    /// A field-for-field copy of the record.
    pub fn duplicate(&self) -> (r: LogEntry)
        ensures
            r == *self,
    {
        LogEntry {
            edit_id: self.edit_id.clone(),
            conversation_id: self.conversation_id.clone(),
            tool_call_index: self.tool_call_index,
            timestamp: self.timestamp.clone(),
            operation: self.operation,
            file_path: self.file_path.clone(),
            source_path: clone_opt(&self.source_path),
            tool_name: self.tool_name.clone(),
            status: self.status,
            diff_file: clone_opt(&self.diff_file),
            checkpoint_file: clone_opt(&self.checkpoint_file),
            hash_before: clone_opt(&self.hash_before),
            hash_after: clone_opt(&self.hash_after),
        }
    }
}

} // verus!
