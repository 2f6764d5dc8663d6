//! Model of the remote service's observable behaviour: the chunk blobs it
//! holds, the committed records in watermark order, and the four protocol
//! operations. The sync loops are verified against this model, and the
//! scenario tests run against it.

use vstd::prelude::*;
use vstd::string::*;
use crate::protocol::{
    comma_free, join_chunk_ids, lemma_split_elements_comma_free, lemma_split_join_round_trip,
    split_chunk_ids, split_ids, CommitResultStatus, SyncError,
};
use crate::records::ResponseFileRecord;
use crate::seq_util::{lemma_filter_empty, lemma_filter_singleton};
use crate::store::{absent_ids, chunk_at, chunk_has, chunk_ids_wf, chunk_keys_unique, find_chunk_in,
    lemma_chunk_push, ChunkEntry};

verus! {

/// A sorted filtering keeps order and membership: filtering records sorted
/// strictly by id yields records sorted strictly by id, all taken from the
/// original sequence.
pub(crate) proof fn lemma_filter_keeps_order(
    s: Seq<ResponseFileRecord>,
    pred: spec_fn(ResponseFileRecord) -> bool,
)
    requires
        forall|i: int, j: int| 0 <= i < j < s.len() ==> s[i].id < s[j].id,
    ensures
        forall|i: int|
            0 <= i < s.filter(pred).len() ==> exists|j: int|
                0 <= j < s.len() && #[trigger] s.filter(pred)[i] == s[j],
        forall|i: int, j: int|
            0 <= i < j < s.filter(pred).len() ==> s.filter(pred)[i].id < s.filter(pred)[j].id,
    decreases s.len(),
{
    reveal(Seq::filter);
    if s.len() != 0 {
        let d = s.drop_last();
        lemma_filter_keeps_order(d, pred);
        let fd = d.filter(pred);
        let f = s.filter(pred);
        assert forall|i: int| 0 <= i < fd.len() implies exists|j: int|
            0 <= j < s.len() && #[trigger] fd[i] == s[j] by {
            let j = choose|j: int| 0 <= j < d.len() && fd[i] == d[j];
            assert(fd[i] == s[j]);
        }
        if pred(s.last()) {
            assert(f == fd.push(s.last()));
            assert forall|i: int| 0 <= i < f.len() implies exists|j: int|
                0 <= j < s.len() && #[trigger] f[i] == s[j] by {
                if i < fd.len() {
                    assert(f[i] == fd[i]);
                } else {
                    assert(f[i] == s[s.len() - 1]);
                }
            }
            assert forall|i: int, j: int| 0 <= i < j < f.len() implies f[i].id < f[j].id by {
                if j < fd.len() {
                } else {
                    assert(f[j] == s.last());
                    assert(f[i] == fd[i]);
                    let jj = choose|jj: int| 0 <= jj < d.len() && fd[i] == d[jj];
                    assert(d[jj] == s[jj]);
                    assert(s[jj].id < s[s.len() - 1].id);
                }
            }
        } else {
            assert(f == fd);
        }
    }
}

/// The remote service: content-addressed chunk set, committed records in
/// strictly increasing jid order, and the next watermark it will assign.
pub struct RemoteModel {
    pub chunks: Vec<ChunkEntry>,
    pub records: Vec<ResponseFileRecord>,
    pub next_jid: i32,
}

impl RemoteModel {
    /// The remote never reuses a watermark: records carry distinct jids in
    /// increasing order, all below the next one to assign.
    pub open spec fn wf(&self) -> bool {
        chunk_keys_unique(self.chunks@) && chunk_ids_wf(self.chunks@) && 1 <= self.next_jid
            && (forall|i: int|
            0 <= i < self.records@.len() ==> 1 <= (#[trigger] self.records@[i]).id
                < self.next_jid) && (forall|i: int, j: int|
            0 <= i < j < self.records@.len() ==> self.records@[i].id < self.records@[j].id)
    }

    pub open spec fn has_chunk_spec(&self, k: Seq<char>) -> bool {
        chunk_has(self.chunks@, k)
    }

    pub open spec fn chunk_data_spec(&self, k: Seq<char>) -> Seq<u8> {
        chunk_at(self.chunks@, k)
    }

    pub fn new() -> (r: RemoteModel)
        ensures
            r.wf(),
            r.records@.len() == 0,
            r.next_jid == 1,
            forall|k: Seq<char>| !r.has_chunk_spec(k),
    {
        RemoteModel { chunks: Vec::new(), records: Vec::new(), next_jid: 1 }
    }

    /// Lists every committed record with a jid above the given watermark,
    /// in increasing jid order: the download loop's view of what is new.
    pub fn list(&self, after: i32) -> (r: Vec<ResponseFileRecord>)
        requires
            self.wf(),
        ensures
            r@ == self.records@.filter(|x: ResponseFileRecord| x.id > after),
            forall|i: int|
                0 <= i < r@.len() ==> after < (#[trigger] r@[i]).id && 1 <= r@[i].id
                    < self.next_jid,
            forall|i: int, j: int| 0 <= i < j < r@.len() ==> r@[i].id < r@[j].id,
    {
        let pred = |x: ResponseFileRecord| x.id > after;
        let mut r: Vec<ResponseFileRecord> = Vec::new();
        let mut i: usize = 0;
        proof {
            assert(self.records@.subrange(0, 0) =~= Seq::<ResponseFileRecord>::empty());
            lemma_filter_empty::<ResponseFileRecord>(|x: ResponseFileRecord| x.id > after);
        }
        while i < self.records.len()
            invariant
                0 <= i <= self.records.len(),
                r@ == self.records@.subrange(0, i as int).filter(
                    |x: ResponseFileRecord| x.id > after,
                ),
            decreases self.records.len() - i,
        {
            let rec = self.records[i].clone();
            proof {
                let p = |x: ResponseFileRecord| x.id > after;
                let pre = self.records@.subrange(0, i as int);
                assert(self.records@.subrange(0, i + 1) =~= pre + seq![self.records@[i as int]]);
                Seq::<ResponseFileRecord>::filter_distributes_over_add(
                    pre,
                    seq![self.records@[i as int]],
                    p,
                );
                lemma_filter_singleton(self.records@[i as int], p);
                if !(rec.id > after) {
                    assert(r@ + Seq::<ResponseFileRecord>::empty() =~= r@);
                }
            }
            if rec.id > after {
                r.push(rec);
            }
            i = i + 1;
        }
        proof {
            assert(self.records@.subrange(0, self.records@.len() as int) =~= self.records@);
            lemma_filter_keeps_order(self.records@, |x: ResponseFileRecord| x.id > after);
            let f = self.records@.filter(|x: ResponseFileRecord| x.id > after);
            assert forall|i: int| 0 <= i < f.len() implies after < (#[trigger] f[i]).id && 1 <= f[
                i
            ].id < self.next_jid by {
                Seq::<ResponseFileRecord>::lemma_filter_pred(
                    self.records@,
                    |x: ResponseFileRecord| x.id > after,
                    i,
                );
                let j = choose|j: int| 0 <= j < self.records@.len() && f[i] == self.records@[j];
                assert(1 <= self.records@[j].id < self.next_jid);
            }
        }
        r
    }

    /// Serves the bytes of one chunk; fails exactly when the chunk id is
    /// unknown to the remote.
    pub fn download(&self, id: &String) -> (r: Result<Vec<u8>, SyncError>)
        requires
            self.wf(),
        ensures
            match r {
                Ok(d) => self.has_chunk_spec(id@) && d@ == self.chunk_data_spec(id@),
                Err(e) => e == SyncError::ChunkNotFound && !self.has_chunk_spec(id@),
            },
    {
        match find_chunk_in(&self.chunks, id) {
            Some(i) => {
                let d = self.chunks[i].data.clone();
                proof {
                    let j = choose|j: int|
                        0 <= j < self.chunks@.len() && self.chunks@[j].id@ == id@;
                    if j != i {
                        assert(self.chunks@[j].id@ == self.chunks@[i as int].id@);
                        assert(!chunk_keys_unique(self.chunks@));
                    }
                    assert(d@ =~= self.chunks@[i as int].data@);
                }
                Ok(d)
            },
            None => Err(SyncError::ChunkNotFound),
        }
    }

    /// Accepts one chunk's bytes. Idempotent: a chunk id the remote
    /// already holds is a no-op success, the state stays as it was.
    pub fn upload(&mut self, id: &String, data: Vec<u8>)
        requires
            old(self).wf(),
            comma_free(id@),
        ensures
            final(self).wf(),
            final(self).has_chunk_spec(id@),
            final(self).chunk_data_spec(id@) == if old(self).has_chunk_spec(id@) {
                old(self).chunk_data_spec(id@)
            } else {
                data@
            },
            forall|k: Seq<char>|
                k != id@ ==> final(self).has_chunk_spec(k) == old(self).has_chunk_spec(k),
            forall|k: Seq<char>|
                k != id@ && old(self).has_chunk_spec(k) ==> final(self).chunk_data_spec(k) == old(
                    self,
                ).chunk_data_spec(k),
            old(self).has_chunk_spec(id@) ==> final(self).chunks == old(self).chunks,
            final(self).records == old(self).records,
            final(self).next_jid == old(self).next_jid,
    {
        match find_chunk_in(&self.chunks, id) {
            Some(_) => {},
            None => {
                let entry = ChunkEntry { id: id.clone(), data };
                proof {
                    lemma_chunk_push(self.chunks@, entry);
                }
                self.chunks.push(entry);
            },
        }
    }

    /// The dedup negotiation primitive. When the remote holds every chunk
    /// the record references, it appends the record under a fresh
    /// watermark and answers `Success`; otherwise it answers `NeedChunks`
    /// with exactly the distinct referenced ids it is missing, changing
    /// nothing.
    pub fn commit(&mut self, path: &String, chunk_ids: &String, format: &String) -> (r:
        CommitResultStatus)
        requires
            old(self).wf(),
            old(self).next_jid < i32::MAX,
        ensures
            final(self).wf(),
            match r {
                CommitResultStatus::Success(jid) => {
                    &&& jid == old(self).next_jid
                    &&& forall|k: Seq<char>|
                        #[trigger] split_ids(chunk_ids@).contains(k) ==> chunk_has(
                            old(self).chunks@,
                            k,
                        )
                    &&& final(self).chunks == old(self).chunks
                    &&& final(self).next_jid == jid + 1
                    &&& final(self).records@.len() == old(self).records@.len() + 1
                    &&& final(self).records@.subrange(0, old(self).records@.len() as int) == old(
                        self,
                    ).records@
                    &&& ({
                        let rec = final(self).records@.last();
                        rec.id == jid && rec.path@ == path@ && rec.chunk_ids@ == chunk_ids@
                            && rec.format@ == format@
                    })
                },
                CommitResultStatus::NeedChunks(m) => {
                    &&& *final(self) == *old(self)
                    &&& split_ids(m@).no_duplicates()
                    &&& forall|k: Seq<char>|
                        #[trigger] split_ids(m@).contains(k) <==> split_ids(chunk_ids@).contains(k)
                            && !chunk_has(old(self).chunks@, k)
                    &&& exists|k: Seq<char>|
                        split_ids(chunk_ids@).contains(k) && !chunk_has(old(self).chunks@, k)
                },
            },
    {
        let ids = split_chunk_ids(chunk_ids.as_str());
        proof {
            lemma_split_elements_comma_free(chunk_ids@);
        }
        let missing = absent_ids(&self.chunks, &ids);
        if missing.len() == 0 {
            proof {
                assert forall|k: Seq<char>| #[trigger] split_ids(chunk_ids@).contains(k) implies
                    chunk_has(self.chunks@, k) by {
                    if !chunk_has(self.chunks@, k) {
                        assert(missing.deep_view().contains(k));
                    }
                }
            }
            let jid = self.next_jid;
            let rec = ResponseFileRecord {
                id: jid,
                path: path.clone(),
                chunk_ids: chunk_ids.clone(),
                format: format.clone(),
            };
            self.records.push(rec);
            self.next_jid = jid + 1;
            proof {
                assert(self.records@.subrange(0, old(self).records@.len() as int) =~= old(
                    self,
                ).records@);
                assert forall|i: int, j: int| 0 <= i < j < self.records@.len() implies
                    self.records@[i].id < self.records@[j].id by {
                    if j < old(self).records@.len() {
                    } else {
                        assert(self.records@[j].id == jid);
                        assert(self.records@[i] == old(self).records@[i]);
                    }
                }
            }
            CommitResultStatus::Success(jid)
        } else {
            let m = join_chunk_ids(&missing);
            proof {
                lemma_split_join_round_trip(missing.deep_view());
                let w = missing.deep_view()[0];
                assert(missing.deep_view().contains(w));
                assert(split_ids(chunk_ids@).contains(w) && !chunk_has(self.chunks@, w));
            }
            CommitResultStatus::NeedChunks(m)
        }
    }
}

} // verus!
