//! The access modes a table handle can be opened in.
use vstd::prelude::*;

verus! {

/// What a table handle may do: a read-only handle exposes no writes.
pub trait Mode {
    fn is_read_only() -> (r: bool);
}

/// A handle that only reads, and may share its table with a writer.
pub struct ReadOnly;

/// The one handle that may write to its table.
pub struct Writeable;

impl Mode for ReadOnly {
    fn is_read_only() -> (r: bool) {
        true
    }
}

impl Mode for Writeable {
    fn is_read_only() -> (r: bool) {
        false
    }
}

} // verus!
