//! The status and error types of stored records.

use std::borrow::Cow;
use vstd::prelude::*;

verus! {

/// The lifecycle state of a record, each with a sub-state.
#[derive(Debug, Clone, PartialEq, Eq, Structural, Hash)]
pub enum Status {
    New(u8),
    Pending(u8),
    Active(u8),
    Inactive(u8),
    Processed(u8),
    Blocked(u8),
    Deleted(u8),
}

impl Default for Status {
    /// A new record: `New(0)`.
    fn default() -> (r: Status)
        ensures
            r == Status::New(0),
    {
        Status::New(0)
    }
}

/// A validation failure of a record.
pub enum ModelError {
    /// The e-mail address is not acceptable; holds it.
    Email(Cow<'static, str>),
}

} // verus!
