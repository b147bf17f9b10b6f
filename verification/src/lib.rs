//! An embedded key-value store on the log-structured-merge pattern: a sorted
//! in-memory write buffer, immutable sorted table images, and the tree that
//! routes reads and writes between them.

use vstd::prelude::*;
use vstd::std_specs::convert::FromSpecImpl;
use vstd::string::StringExecFns;

pub mod directory;
pub mod format;
pub mod lexical;
pub mod lsm;
pub mod memtable;
pub mod naming;
pub mod ordered;
pub mod round_trip;
pub mod sstable;

pub use directory::TableFile;
pub use lsm::{LSMTree, MEMTABLE_SIZE_THRESHOLD};
pub use memtable::{Memtable, Value};
pub use sstable::{SSTable, SSTableBuilder};

verus! {

/// `std::io::Error`, the error of a failed read, write, seek or create. The
/// library carries such a value through and never looks inside it.
#[verifier::external_type_specification]
#[verifier::external_body]
pub struct ExIoError(std::io::Error);

/// What can go wrong in the store.
#[derive(Debug)]
pub enum Error {
    /// A read, write, seek or create failed underneath.
    Io(std::io::Error),
    /// Stored bytes are not a table of this format, or contradict themselves.
    Corruption(String),
    /// The caller handed in something that cannot be accepted.
    InvalidArgument(String),
}

/// The text of `std::io::Error`, as its `Display` writes it. What the text
/// says is the platform's matter: nothing is claimed of it.
#[verifier::external_body]
fn io_error_text(err: &std::io::Error) -> (text: String) {
    err.to_string()
}

impl Error {
    /// The error in words: its kind, a colon, and what happened.
    pub fn message(&self) -> (text: String)
        ensures
            match self {
                Error::Io(_) => text@.len() >= "I/O error: "@.len() && text@.subrange(
                    0,
                    "I/O error: "@.len() as int,
                ) == "I/O error: "@,
                Error::Corruption(msg) => text@ == "Corruption: "@ + msg@,
                Error::InvalidArgument(msg) => text@ == "Invalid argument: "@ + msg@,
            },
    {
        match self {
            Error::Io(err) => {
                let mut text = String::from_str("I/O error: ");
                let what = io_error_text(err);
                text.append(what.as_str());
                assert(text@.subrange(0, "I/O error: "@.len() as int) =~= "I/O error: "@);
                text
            },
            Error::Corruption(msg) => {
                let mut text = String::from_str("Corruption: ");
                text.append(msg.as_str());
                text
            },
            Error::InvalidArgument(msg) => {
                let mut text = String::from_str("Invalid argument: ");
                text.append(msg.as_str());
                text
            },
        }
    }
}

impl From<std::io::Error> for Error {
    /// A failure of the underlying storage, as an error of the store.
    fn from(err: std::io::Error) -> (e: Error) {
        Error::Io(err)
    }
}

impl FromSpecImpl<std::io::Error> for Error {
    open spec fn obeys_from_spec() -> bool {
        true
    }

    open spec fn from_spec(err: std::io::Error) -> Error {
        Error::Io(err)
    }
}

} // verus!
