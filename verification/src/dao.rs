//! Record types exchanged with the metadata store.
//!
//! The store itself (a relational database) is an external collaborator;
//! the application owns the connection and the queries.  The library owns
//! the records and the rules for building them.

use vstd::prelude::*;
use crate::util::path_utils;

verus! {

/// A file registered under an indexed directory.
pub struct IndexFile {
    pub id: i64,
    pub name: String,
    pub path: String,
    pub scan_time: i64,
    pub status: i32,
    pub index_dir_id: i64,
}

/// A directory whose contents are indexed, deletable as one partition.
pub struct IndexDir {
    pub id: i64,
    pub path: String,
}

/// A demonstration record for the store's self-test table.
pub struct SqliteUser {
    pub id: i64,
    pub name: Option<String>,
}

impl IndexFile {
    /// Builds the record for a freshly scanned file: separators are
    /// normalised to `/`, the name is what follows the last separator,
    /// and the scan time is the clock reading at the call.
    pub fn new(file_path: String, index_dir_id: i64) -> (r: Self)
        ensures
            r.id == 0,
            r.status == 0,
            r.index_dir_id == index_dir_id,
            r.path@ == path_utils::slash_path(file_path@),
            r.name@ == path_utils::name_after_last_slash(path_utils::slash_path(file_path@)),
    {
        let path = path_utils::to_slash_path(file_path.as_str());
        let name = path_utils::file_name_of(path.as_str());
        let time = now_millis();
        IndexFile { id: 0, name, path, scan_time: time, status: 0, index_dir_id }
    }
}

/// Relies on std::time::SystemTime: the milliseconds since the Unix epoch,
/// or 0 for a clock set before it.  Nothing is claimed of the reading.
#[verifier::external_body]
fn now_millis() -> i64 {
    match std::time::SystemTime::now().duration_since(std::time::UNIX_EPOCH) {
        Ok(d) => d.as_millis() as i64,
        Err(_) => 0,
    }
}

} // verus!
