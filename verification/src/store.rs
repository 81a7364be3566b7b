//! The storage boundary, kept free of any file-system concern. The driver
//! owns the two files (the indirection file and the database file), reads
//! them, and hands their contents here as plain strings; these functions
//! decide what the contents mean.

use vstd::prelude::*;
use crate::codec::MalformedDatabase;
use crate::codec::decode_spec;
use crate::codec::entries_of;
use crate::codec::entry_ok;
use crate::codec::valid_blob;
use crate::table::HashyMap;
use crate::table::wf;

verus! {

/// Build the table from the persisted blob. An absent database reads as the
/// empty string, which means the empty table; anything else is decoded, and
/// a blob that breaks the grammar is reported rather than crashing.
pub fn read_database(blob: String) -> (r: Result<HashyMap, MalformedDatabase>)
    ensures
        match r {
            Ok(m) => valid_blob(blob@) && m@ == decode_spec(blob@) && wf(m@),
            Err(e) => !valid_blob(blob@) && ({
                let ps = entries_of(blob@);
                &&& e.entry_index < ps.len()
                &&& !entry_ok(ps, e.entry_index as int)
                &&& forall|j: int| 0 <= j < e.entry_index ==> entry_ok(ps, j)
            }),
        },
{
    if blob.as_str().unicode_len() == 0 {
        let m = HashyMap::new();
        proof {
            assert(m@ =~= decode_spec(blob@));
        }
        Ok(m)
    } else {
        HashyMap::from_string(blob)
    }
}

/// Resolve the indirection file's content to the active database path:
/// empty content falls back to the literal path "database".
pub fn read_default(contents: String) -> (r: String)
    ensures
        contents@.len() == 0 ==> r@ == "database"@,
        contents@.len() != 0 ==> r@ == contents@,
{
    if contents.as_str().unicode_len() == 0 {
        String::from_str("database")
    } else {
        contents
    }
}

/// Whether a path may be stored in the indirection file: only the empty
/// string is rejected.
pub fn valid_default_path(content: &str) -> (r: bool)
    ensures
        r == (content@.len() != 0),
{
    content.unicode_len() != 0
}

} // verus!
