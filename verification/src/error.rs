//! The crate's error type: every failure a command can report.

use vstd::prelude::*;

verus! {

/// Failure of a command. I/O and storage-format failures carry no
/// payload; the others name the index or project that was at fault.
#[derive(Debug)]
pub enum RustaskError {
    /// Failed to perform I/O on the task store.
    IOError,
    /// No task stands at the given index.
    OutOfBounds(usize),
    /// No project of the given name exists.
    ProjectNotFound(String),
    /// A project of the given name already exists.
    ProjectNameTaken(String),
    /// The task file does not exist.
    TaskFileNotFound(String),
    /// The stored text does not decode as a collection.
    SerializationError,
}

/// Equality of errors: payloads decide for the indexed and named
/// variants; any two I/O failures count as equal, as do any two
/// storage-format failures.
pub open spec fn err_eq(a: &RustaskError, b: &RustaskError) -> bool {
    match (a, b) {
        (RustaskError::IOError, RustaskError::IOError) => true,
        (RustaskError::OutOfBounds(x), RustaskError::OutOfBounds(y)) => x == y,
        (RustaskError::ProjectNotFound(x), RustaskError::ProjectNotFound(y)) => x@ == y@,
        (RustaskError::ProjectNameTaken(x), RustaskError::ProjectNameTaken(y)) => x@ == y@,
        (RustaskError::TaskFileNotFound(x), RustaskError::TaskFileNotFound(y)) => x@ == y@,
        (RustaskError::SerializationError, RustaskError::SerializationError) => true,
        _ => false,
    }
}

impl PartialEq for RustaskError {
    fn eq(&self, other: &RustaskError) -> (r: bool) {
        match (self, other) {
            (RustaskError::IOError, RustaskError::IOError) => true,
            (RustaskError::OutOfBounds(x), RustaskError::OutOfBounds(y)) => *x == *y,
            (RustaskError::ProjectNotFound(x), RustaskError::ProjectNotFound(y)) => *x == *y,
            (RustaskError::ProjectNameTaken(x), RustaskError::ProjectNameTaken(y)) => *x == *y,
            (RustaskError::TaskFileNotFound(x), RustaskError::TaskFileNotFound(y)) => *x == *y,
            (RustaskError::SerializationError, RustaskError::SerializationError) => true,
            _ => false,
        }
    }
}

impl vstd::std_specs::cmp::PartialEqSpecImpl for RustaskError {
    open spec fn obeys_eq_spec() -> bool {
        true
    }

    open spec fn eq_spec(&self, other: &RustaskError) -> bool {
        err_eq(self, other)
    }
}

} // verus!
