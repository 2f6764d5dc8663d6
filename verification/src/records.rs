//! The metadata records exchanged with the remote service and written to
//! the local registry.

use vstd::prelude::*;
use vstd::string::*;

verus! {

/// One file record as the remote listing carries it: the remote-assigned
/// watermark (jid), the path, the comma-joined chunk ids of the content,
/// and the format tag.
pub struct ResponseFileRecord {
    pub id: i32,
    pub path: String,
    pub chunk_ids: String,
    pub format: String,
}

impl Clone for ResponseFileRecord {
    fn clone(&self) -> (r: Self)
        ensures
            r == *self,
    {
        ResponseFileRecord {
            id: self.id,
            path: self.path.clone(),
            chunk_ids: self.chunk_ids.clone(),
            format: self.format.clone(),
        }
    }
}

/// The insert/update form for one local registry record: the remote
/// watermark once assigned, the path, observed size and modification
/// time, and the format tag.
pub struct FileRecordCreateForm {
    pub jid: Option<i32>,
    pub path: String,
    pub size: i64,
    pub format: String,
    pub modified_at: i64,
}

/// Builds the registry form for a file applied from the remote listing:
/// the record carries the remote jid, the observed byte length and
/// modification time, and the fixed format marker.
pub fn build_file_record(path: &str, jid: i32, size: i64, modified_at: i64) -> (r:
    FileRecordCreateForm)
    ensures
        r.jid == Some(jid),
        r.path@ == path@,
        r.size == size,
        r.format@ == seq!['t'],
        r.modified_at == modified_at,
{
    let form = FileRecordCreateForm {
        jid: Some(jid),
        path: String::from_str(path),
        size,
        format: String::from_str("t"),
        modified_at,
    };
    proof {
        reveal_strlit("t");
        assert(form.format@ =~= seq!['t']);
    }
    form
}

} // verus!
