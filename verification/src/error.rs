//! The error taxonomy: every failure the engine or the codec can surface.

use vstd::prelude::*;
use vstd::string::StringExecFns;

verus! {

/// Why a store text failed to decode.
#[derive(Clone, Copy, Debug, PartialEq, Eq, Structural)]
pub enum DecodeError {
    /// The text does not follow the store grammar.
    Malformed,
    /// The text follows the grammar but names the same path twice.
    DuplicatePath,
}

/// The fatal failures of one command, with their context. The surrounding
/// process prints the message and exits nonzero.
pub enum Error {
    /// A threshold argument that is not a whole number of seconds.
    U64Parse { arg: String },
    /// No usable home/data directory could be determined.
    InvalidHomeDir,
    /// The store file exists but its content does not decode.
    DatabaseDeserialize { path: String, cause: DecodeError },
    /// The in-memory state could not be encoded.
    DatabaseSerialize,
    /// The store file exists but could not be opened.
    DatabaseOpen { path: String, detail: String },
    /// The store file could not be written.
    DatabaseSave { path: String, detail: String },
    /// The per-user data directory could not be created.
    DataDirCreation { path: String, detail: String },
}

/// The human-readable description of a decode failure.
pub open spec fn spec_decode_cause(c: DecodeError) -> Seq<char> {
    match c {
        DecodeError::Malformed => "the store text is malformed"@,
        DecodeError::DuplicatePath => "the store text names the same path twice"@,
    }
}

/// The human-readable message of each error.
pub open spec fn spec_message(e: Error) -> Seq<char> {
    match e {
        Error::U64Parse { arg } => "Argument '"@ + arg@ + "' couldn't be parsed into a u64"@,
        Error::InvalidHomeDir => "Couldn't find a valid $HOME directory"@,
        Error::DatabaseDeserialize { path, cause } => "Couldn't deserialize the database file from "@
            + path@ + ": "@ + spec_decode_cause(cause),
        Error::DatabaseSerialize => "Couldn't serialize the database instance"@,
        Error::DatabaseOpen { path, detail } => "Couldn't open the database file at "@ + path@
            + ": "@ + detail@,
        Error::DatabaseSave { path, detail } => "Couldn't save the database file to "@ + path@
            + ": "@ + detail@,
        Error::DataDirCreation { path, detail } => "Couldn't create data directory "@ + path@
            + ": "@ + detail@,
    }
}

impl Error {
    /// The message to print for this error.
    pub fn message(&self) -> (r: String)
        ensures
            r@ == spec_message(*self),
    {
        match self {
            Error::U64Parse { arg } => {
                let mut out = String::from_str("Argument '");
                out.append(arg.as_str());
                out.append("' couldn't be parsed into a u64");
                assert(out@ =~= spec_message(*self));
                out
            },
            Error::InvalidHomeDir => String::from_str("Couldn't find a valid $HOME directory"),
            Error::DatabaseDeserialize { path, cause } => {
                let mut out = String::from_str("Couldn't deserialize the database file from ");
                out.append(path.as_str());
                out.append(": ");
                match cause {
                    DecodeError::Malformed => out.append("the store text is malformed"),
                    DecodeError::DuplicatePath => out.append(
                        "the store text names the same path twice",
                    ),
                }
                assert(out@ =~= spec_message(*self));
                out
            },
            Error::DatabaseSerialize => String::from_str(
                "Couldn't serialize the database instance",
            ),
            Error::DatabaseOpen { path, detail } => {
                let mut out = String::from_str("Couldn't open the database file at ");
                out.append(path.as_str());
                out.append(": ");
                out.append(detail.as_str());
                assert(out@ =~= spec_message(*self));
                out
            },
            Error::DatabaseSave { path, detail } => {
                let mut out = String::from_str("Couldn't save the database file to ");
                out.append(path.as_str());
                out.append(": ");
                out.append(detail.as_str());
                assert(out@ =~= spec_message(*self));
                out
            },
            Error::DataDirCreation { path, detail } => {
                let mut out = String::from_str("Couldn't create data directory ");
                out.append(path.as_str());
                out.append(": ");
                out.append(detail.as_str());
                assert(out@ =~= spec_message(*self));
                out
            },
        }
    }
}

} // verus!
