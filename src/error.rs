use vstd::prelude::*;
use vstd::string::*;

use crate::text::push_str;

verus! {

/// Which composition of two operations on one key cannot be merged.
#[derive(Debug, Clone, Copy, PartialEq, Eq, Structural)]
pub enum MergeRule {
    /// The key is inserted by both deltas.
    DoubleInsert,
    /// The key is deleted by both deltas.
    DoubleDelete,
    /// The key is deleted by the parent and updated by the child.
    UpdateAfterDelete,
    /// The key is updated by the parent and inserted by the child.
    InsertAfterUpdate,
    /// The child deletes a value other than the one the parent updated to.
    DeleteMismatch,
}

/// The failures of the library's operations.
#[derive(Debug)]
pub enum Error {
    /// A file-system operation failed on `path`.
    Io { path: String, cause: String },
    /// An advisory lock on `path` could not be taken.
    LockFailed { path: String, cause: String },
    /// A required blob is absent.
    NotFound(String),
    /// A blob could not be decoded.
    Corrupt { name: String, cause: String },
    /// A configured data source is missing.
    SourceMissing(String),
    /// A data row has the wrong number of columns.
    RowArityMismatch { table: String, row: usize, got: usize, expected: usize },
    /// Two deltas of one table disagree on their columns.
    SchemaMismatch(String),
    /// Two deltas cannot be merged on `key`.
    MergeConflict { table: String, key: Vec<String>, rule: MergeRule },
    /// No block matches the given hash prefix.
    UnknownRef(String),
    /// Several blocks match the given hash prefix.
    AmbiguousRef { prefix: String, candidates: Vec<String> },
    /// A value cannot be written as a literal of its column's type.
    InvalidLiteral { table: String, column: String, value: String, cause: String },
    /// The configuration is not valid.
    ConfigInvalid(String),
}


impl Error {
    /// A one-line description of the failure.
    pub fn message(&self) -> (r: String)
        ensures
            self matches Error::SchemaMismatch(t) ==> r@ == "cannot merge deltas for table '"@ + t@
                + "': field mismatch"@,
            r@.len() > 0,
    {
        proof {
            reveal_strlit("cannot merge deltas for table '");
            reveal_strlit("': field mismatch");
        }
        let (head, detail): (&str, &String) = match self {
            Error::Io { path, cause: _ } => ("i/o error on ", path),
            Error::LockFailed { path, cause: _ } => ("could not lock ", path),
            Error::NotFound(name) => ("not found: ", name),
            Error::Corrupt { name, cause: _ } => ("corrupt blob: ", name),
            Error::SourceMissing(path) => ("data source missing: ", path),
            Error::RowArityMismatch { table, row: _, got: _, expected: _ } => ("wrong number of fields in table ", table),
            Error::SchemaMismatch(table) => {
                let mut m = String::from_str("cannot merge deltas for table '");
                push_str(&mut m, table.as_str());
                push_str(&mut m, "': field mismatch");
                return m;
            },
            Error::MergeConflict { table, key: _, rule: _ } => ("merge conflict in table ", table),
            Error::UnknownRef(prefix) => ("no block found matching prefix ", prefix),
            Error::AmbiguousRef { prefix, candidates: _ } => ("ambiguous hash prefix ", prefix),
            Error::InvalidLiteral { table, column: _, value: _, cause: _ } => ("invalid literal in table ", table),
            Error::ConfigInvalid(reason) => ("invalid config: ", reason),
        };
        let mut m = head.to_string();
        proof {
            assert(head@.len() > 0) by {
                reveal_strlit("i/o error on ");
                reveal_strlit("could not lock ");
                reveal_strlit("not found: ");
                reveal_strlit("corrupt blob: ");
                reveal_strlit("data source missing: ");
                reveal_strlit("wrong number of fields in table ");
                reveal_strlit("merge conflict in table ");
                reveal_strlit("no block found matching prefix ");
                reveal_strlit("ambiguous hash prefix ");
                reveal_strlit("invalid literal in table ");
                reveal_strlit("invalid config: ");
            }
        }
        push_str(&mut m, detail.as_str());
        m
    }
}
} // verus!
