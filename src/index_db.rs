use vstd::prelude::*;

verus! {

/// A file as the flat index stores it: its row id, checksum, name, the
/// directory path as one text ("/a/b/"), and its modification time in
/// milliseconds since the Unix epoch.
#[derive(Debug)]
pub struct IndexRecord {
    pub id: u32,
    pub checksum: String,
    pub name: String,
    pub path: String,
    pub modified: i64,
}

} // verus!
