//! The versioned object records of the Earth database: what a read gives for
//! an object that was never written, and what a bump writes back.
use vstd::prelude::*;

verus! {

/// The version that a read reports for an object that was never written.
pub const UNWRITTEN_VERSION: i64 = 1;

/// An object value with the version it was read at.
#[derive(Clone, Debug, PartialEq)]
pub struct Record<T> {
    pub value: T,
    pub version: i64,
}

/// The database kept in the SQLite file at one path.
pub struct EarthDb {
    connection_string: std::path::PathBuf,
}

impl EarthDb {
    pub closed spec fn path(&self) -> std::path::PathBuf {
        self.connection_string
    }

    /// The database at `connection_string`, once its file and table exist.
    pub fn at(connection_string: std::path::PathBuf) -> (db: EarthDb)
        ensures
            db.path() == connection_string,
    {
        EarthDb { connection_string }
    }

    pub fn connection_string(&self) -> (path: &std::path::PathBuf)
        ensures
            *path == self.path(),
    {
        &self.connection_string
    }
}

/// What a read gives: the stored value and version when the object has a
/// row, and otherwise the default value at the unwritten version.
pub fn record_from_row<T>(row: Option<(T, i64)>, default: T) -> (record: Record<T>)
    ensures
        match row {
            Some((value, version)) => record == Record { value, version },
            None => record == Record { value: default, version: UNWRITTEN_VERSION },
        },
{
    match row {
        Some((value, version)) => Record { value, version },
        None => Record { value: default, version: UNWRITTEN_VERSION },
    }
}

/// Whether a record was read from an object that has been written.
pub open spec fn spec_was_written(version: i64) -> bool {
    version != UNWRITTEN_VERSION
}

/// The value that a bump writes back: the default for an object that was
/// never written, and the current value otherwise.
pub fn bumped_value<T>(current: Record<T>, default: T) -> (value: T)
    ensures
        value == if spec_was_written(current.version) {
            current.value
        } else {
            default
        },
{
    if current.version == UNWRITTEN_VERSION {
        default
    } else {
        current.value
    }
}

} // verus!
