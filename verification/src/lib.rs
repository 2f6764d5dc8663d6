//! Synchronization core of a chunk-deduplicating file-replication
//! client. A download loop pulls records committed on the remote past
//! the local watermark and fetches only the chunks the local store does
//! not hold; an upload loop pushes locally modified files through a
//! two-phase commit negotiation, sending only the chunks the remote
//! reports missing. Both loops share the content-addressed chunk store
//! under a mutual-exclusion discipline. The wire codecs, the store,
//! registry and remote models, both loops' iterations, and the lock
//! discipline are all verified; the I/O shell around them performs the
//! network and filesystem work.

use vstd::prelude::*;

pub mod download;
pub mod locking;
pub mod protocol;
pub mod records;
pub mod registry;
pub mod remote_model;
pub mod seq_util;
pub mod store;
pub mod upload;

verus! {

} // verus!
