//! The upload side of the synchronizer: pushing one locally modified
//! record through the two-phase commit negotiation, and one iteration of
//! the upload loop with its self-accelerating schedule.

use vstd::prelude::*;
use vstd::string::*;
use crate::protocol::{lemma_split_elements_comma_free, lemma_split_join_round_trip,
    join_chunk_ids, split_chunk_ids, split_ids, CommitResultStatus, SyncError};
use crate::registry::{LocalRegistry, RegistryRecord};
use crate::remote_model::RemoteModel;
use crate::seq_util::lemma_filter_members;
use crate::store::{file_entry_wf, ChunkStore};

verus! {

/// Seconds the upload loop waits when its backlog is empty.
pub const INTERVAL_CHECK_UPLOAD_SEC: u64 = 47;

/// The self-accelerating schedule: a non-empty backlog is retried at
/// once, an empty one waits the full interval.
pub fn upload_wait_secs(pending: usize) -> (r: u64)
    ensures
        r == if pending == 0 {
            INTERVAL_CHECK_UPLOAD_SEC
        } else {
            0u64
        },
{
    if pending == 0 {
        INTERVAL_CHECK_UPLOAD_SEC
    } else {
        0
    }
}

/// What pushing one record did: the watermark the remote assigned, and
/// the chunk ids that had to be uploaded first.
pub struct UploadReport {
    pub committed_jid: i32,
    pub uploaded: Vec<String>,
}

/// Pushes one path's current content to the remote: decomposes the file,
/// issues a commit, uploads exactly the chunks the remote answered it was
/// missing, and re-issues the commit, which then must succeed. The
/// registry record is updated with the assigned watermark.
#[verifier::loop_isolation(false)]
pub fn push_record(
    store: &ChunkStore,
    reg: &mut LocalRegistry,
    remote: &mut RemoteModel,
    path: &String,
) -> (r: Result<UploadReport, SyncError>)
    requires
        store.wf(),
        old(reg).wf(),
        old(remote).wf(),
        old(remote).next_jid < i32::MAX,
        old(reg).has_record_spec(path@),
    ensures
        final(reg).wf(),
        final(remote).wf(),
        final(remote).next_jid >= old(remote).next_jid,
        final(remote).next_jid <= old(remote).next_jid + 1,
        final(reg).watermark >= old(reg).watermark,
        forall|k: Seq<char>|
            old(remote).has_chunk_spec(k) ==> #[trigger] final(remote).has_chunk_spec(k)
                && final(remote).chunk_data_spec(k) == old(remote).chunk_data_spec(k),
        forall|p: Seq<char>|
            final(reg).has_record_spec(p) == old(reg).has_record_spec(p),
        forall|p: Seq<char>|
            p != path@ && old(reg).has_record_spec(p) ==> final(reg).record_spec(p) == old(
                reg,
            ).record_spec(p),
        match r {
            Ok(rep) => ({
                let ids = store.file_ids_spec(path@);
                &&& store.has_file_spec(path@)
                &&& rep.committed_jid == old(remote).next_jid
                &&& final(remote).next_jid == rep.committed_jid + 1
                &&& forall|k: Seq<char>|
                    #[trigger] final(remote).has_chunk_spec(k) <==> old(remote).has_chunk_spec(k)
                        || ids.contains(k)
                &&& forall|k: Seq<char>|
                    ids.contains(k) && !old(remote).has_chunk_spec(k)
                        ==> final(remote).chunk_data_spec(k) == store.chunk_data_spec(k)
                &&& rep.uploaded.deep_view().no_duplicates()
                &&& forall|k: Seq<char>|
                    #[trigger] rep.uploaded.deep_view().contains(k) <==> ids.contains(k) && !old(
                        remote,
                    ).has_chunk_spec(k)
                &&& final(remote).records@.len() == old(remote).records@.len() + 1
                &&& final(remote).records@.subrange(0, old(remote).records@.len() as int) == old(
                    remote,
                ).records@
                &&& ({
                    let rc = final(remote).records@.last();
                    rc.id == rep.committed_jid && rc.path@ == path@ && split_ids(rc.chunk_ids@)
                        == ids
                })
                &&& ({
                    let rr = final(reg).record_spec(path@);
                    rr.jid == Some(rep.committed_jid) && !rr.dirty
                })
                &&& final(reg).watermark == if rep.committed_jid > old(reg).watermark {
                    rep.committed_jid
                } else {
                    old(reg).watermark
                }
            }),
            Err(e) => {
                &&& e == SyncError::LocalIoError
                &&& !store.has_file_spec(path@)
                &&& *final(reg) == *old(reg)
                &&& *final(remote) == *old(remote)
            },
        },
{
    let ids = match store.hashify(path) {
        Ok(v) => v,
        Err(e) => {
            return Err(e);
        },
    };
    let ghost idv = ids.deep_view();
    proof {
        // The store's well-formedness carries the file-entry facts over
        // to the decomposed id list.
        let j = choose|j: int| 0 <= j < store.files@.len() && store.files@[j].path@ == path@;
        assert(file_entry_wf(store.files@[j], store.chunks@));
        let jc = choose|jc: int| 0 <= jc < store.files@.len() && store.files@[jc].path@ == path@;
        if j != jc {
            assert(store.files@[j].path@ == store.files@[jc].path@);
        }
        assert(idv == store.files@[jc].ids.deep_view());
        assert forall|i: int| 0 <= i < idv.len() implies crate::protocol::comma_free(
            #[trigger] idv[i],
        ) && store.has_chunk_spec(idv[i]) by {
            assert(store.files@[j].ids.deep_view()[i] == idv[i]);
        }
        assert(idv.len() >= 1);
    }
    let joined = join_chunk_ids(&ids);
    proof {
        lemma_split_join_round_trip(idv);
        assert(split_ids(joined@) == idv);
    }
    let fmt = String::from_str("t");
    match remote.commit(path, &joined, &fmt) {
        CommitResultStatus::Success(jid) => {
            reg.update_remote_id(path, jid);
            let rep = UploadReport { committed_jid: jid, uploaded: Vec::new() };
            proof {
                assert(rep.uploaded.deep_view() =~= Seq::<Seq<char>>::empty());
                assert forall|k: Seq<char>| #[trigger] remote.has_chunk_spec(k) <==> (old(
                    remote,
                ).has_chunk_spec(k) || idv.contains(k)) by {
                    if idv.contains(k) {
                        assert(split_ids(joined@).contains(k));
                    }
                }
            }
            Ok(rep)
        },
        CommitResultStatus::NeedChunks(m) => {
            let missing = split_chunk_ids(m.as_str());
            let ghost mdv = missing.deep_view();
            proof {
                lemma_split_elements_comma_free(m@);
                assert(mdv == split_ids(m@));
            }
            let mut t: usize = 0;
            proof {
                assert(mdv.subrange(0, 0) =~= Seq::<Seq<char>>::empty());
            }
            while t < missing.len()
                invariant
                    0 <= t <= missing.len(),
                    remote.wf(),
                    remote.records == old(remote).records,
                    remote.next_jid == old(remote).next_jid,
                    forall|k: Seq<char>|
                        #[trigger] remote.has_chunk_spec(k) <==> old(remote).has_chunk_spec(k)
                            || mdv.subrange(0, t as int).contains(k),
                    forall|k: Seq<char>|
                        old(remote).has_chunk_spec(k) ==> remote.chunk_data_spec(k) == old(
                            remote,
                        ).chunk_data_spec(k),
                    forall|k: Seq<char>|
                        !old(remote).has_chunk_spec(k) && #[trigger] remote.has_chunk_spec(k)
                            ==> remote.chunk_data_spec(k) == store.chunk_data_spec(k),
                decreases missing.len() - t,
            {
                let c = &missing[t];
                proof {
                    assert(mdv[t as int] == missing@[t as int]@);
                    assert(mdv.contains(mdv[t as int]));
                    assert(idv.contains(mdv[t as int]));
                    assert(mdv.subrange(0, t + 1) =~= mdv.subrange(0, t as int).push(
                        mdv[t as int],
                    ));
                }
                let data = match store.read_chunk(c) {
                    Ok(d) => d,
                    Err(_) => {
                        proof {
                            assert(store.has_chunk_spec(mdv[t as int]));
                            assert(false);
                        }
                        return Err(SyncError::LocalIoError);
                    },
                };
                remote.upload(c, data);
                proof {
                    assert forall|k: Seq<char>| #[trigger] remote.has_chunk_spec(k) implies (old(
                        remote,
                    ).has_chunk_spec(k) || mdv.subrange(0, t + 1).contains(k)) by {
                        if k != mdv[t as int] {
                            if !old(remote).has_chunk_spec(k) {
                                assert(mdv.subrange(0, t as int).contains(k));
                                let jj = choose|jj: int|
                                    0 <= jj < t && mdv.subrange(0, t as int)[jj] == k;
                                assert(mdv.subrange(0, t + 1)[jj] == k);
                            }
                        } else {
                            assert(mdv.subrange(0, t + 1).last() == k);
                        }
                    }
                    assert forall|k: Seq<char>|
                        old(remote).has_chunk_spec(k) || mdv.subrange(0, t + 1).contains(k)
                            implies #[trigger] remote.has_chunk_spec(k) by {
                        if !old(remote).has_chunk_spec(k) {
                            let sub = mdv.subrange(0, t + 1);
                            let j = choose|j: int| 0 <= j < sub.len() && sub[j] == k;
                            if j < t {
                                assert(mdv.subrange(0, t as int).contains(k));
                            }
                        }
                    }
                }
                t = t + 1;
            }
            let ghost rm1 = *remote;
            proof {
                assert(mdv.subrange(0, mdv.len() as int) =~= mdv);
                assert forall|k: Seq<char>|
                    #![trigger rm1.has_chunk_spec(k)]
                    rm1.has_chunk_spec(k) == (old(remote).has_chunk_spec(k) || mdv.contains(
                        k,
                    )) by {
                    assert(remote.has_chunk_spec(k) <==> (old(remote).has_chunk_spec(k)
                        || mdv.subrange(0, mdv.len() as int).contains(k)));
                }
                assert forall|k: Seq<char>|
                    old(remote).has_chunk_spec(k) implies #[trigger] rm1.chunk_data_spec(k) == old(
                    remote,
                ).chunk_data_spec(k) by {
                    assert(remote.chunk_data_spec(k) == old(remote).chunk_data_spec(k));
                }
                assert forall|k: Seq<char>|
                    !old(remote).has_chunk_spec(k) && #[trigger] rm1.has_chunk_spec(k)
                        implies rm1.chunk_data_spec(k) == store.chunk_data_spec(k) by {
                    assert(remote.has_chunk_spec(k));
                    assert(remote.chunk_data_spec(k) == store.chunk_data_spec(k));
                }
                assert forall|k: Seq<char>|
                    idv.contains(k) implies #[trigger] rm1.has_chunk_spec(k) by {
                    assert(split_ids(m@).contains(k) <==> (split_ids(joined@).contains(k) && !old(
                        remote,
                    ).has_chunk_spec(k)));
                    if !old(remote).has_chunk_spec(k) {
                        assert(mdv.contains(k));
                        assert(remote.has_chunk_spec(k));
                    } else {
                        assert(remote.has_chunk_spec(k));
                    }
                }
            }
            match remote.commit(path, &joined, &fmt) {
                CommitResultStatus::Success(jid) => {
                    reg.update_remote_id(path, jid);
                    let rep = UploadReport { committed_jid: jid, uploaded: missing };
                    proof {
                        assert(remote.chunks@ == rm1.chunks@);
                        assert forall|k: Seq<char>|
                            #![trigger remote.has_chunk_spec(k)]
                            remote.has_chunk_spec(k) == rm1.has_chunk_spec(k) by {
                            assert(remote.chunks@ == rm1.chunks@);
                        }
                        assert forall|k: Seq<char>|
                            #![trigger remote.chunk_data_spec(k)]
                            remote.chunk_data_spec(k) == rm1.chunk_data_spec(k) by {
                            assert(remote.chunks@ == rm1.chunks@);
                        }
                        assert forall|k: Seq<char>| #[trigger] remote.has_chunk_spec(k) <==> (old(
                            remote,
                        ).has_chunk_spec(k) || idv.contains(k)) by {
                            assert(split_ids(m@).contains(k) <==> (split_ids(joined@).contains(k)
                                && !old(remote).has_chunk_spec(k)));
                            if idv.contains(k) && !old(remote).has_chunk_spec(k) {
                                assert(mdv.contains(k));
                                assert(rm1.has_chunk_spec(k));
                            }
                            if rm1.has_chunk_spec(k) && !old(remote).has_chunk_spec(k) {
                                assert(mdv.contains(k));
                                assert(idv.contains(k));
                            }
                        }
                        assert forall|k: Seq<char>| #[trigger] rep.uploaded.deep_view().contains(
                            k,
                        ) <==> (idv.contains(k) && !old(remote).has_chunk_spec(k)) by {
                            assert(split_ids(m@).contains(k) <==> (split_ids(joined@).contains(k)
                                && !old(remote).has_chunk_spec(k)));
                        }
                        assert forall|k: Seq<char>|
                            idv.contains(k) && !old(remote).has_chunk_spec(k)
                                implies remote.chunk_data_spec(k) == store.chunk_data_spec(k) by {
                            assert(rm1.has_chunk_spec(k));
                            assert(rm1.chunk_data_spec(k) == store.chunk_data_spec(k));
                        }
                        assert forall|k: Seq<char>|
                            old(remote).has_chunk_spec(k) implies #[trigger] remote.has_chunk_spec(
                            k,
                        ) && remote.chunk_data_spec(k) == old(remote).chunk_data_spec(k) by {
                            assert(rm1.has_chunk_spec(k));
                            assert(rm1.chunk_data_spec(k) == old(remote).chunk_data_spec(k));
                        }
                    }
                    Ok(rep)
                },
                CommitResultStatus::NeedChunks(m2) => {
                    proof {
                        lemma_split_elements_comma_free(m2@);
                        let w = split_ids(m2@)[0];
                        assert(split_ids(m2@).contains(w));
                        assert(split_ids(joined@).contains(w));
                        assert(idv.contains(w));
                        assert(rm1.has_chunk_spec(w));
                        assert(false);
                    }
                    Err(SyncError::LocalIoError)
                },
            }
        },
    }
}

/// What one upload iteration did: how many backlog records committed, how
/// many failed, and whether the loop should wait before the next pass.
pub struct UploadRoundReport {
    pub completed: usize,
    pub failed: usize,
    pub wait: bool,
}

/// How many registry records are marked locally modified.
pub open spec fn dirty_count(reg: LocalRegistry) -> nat {
    reg.records@.filter(|x: RegistryRecord| x.dirty).len()
}

/// How many locally modified records reference a path the store has no
/// file for: exactly the pushes that must fail.
pub open spec fn dirty_missing_count(reg: LocalRegistry, st: ChunkStore) -> nat {
    reg.records@.filter(|x: RegistryRecord| x.dirty).filter(
        |x: RegistryRecord| !st.has_file_spec(x.path@),
    ).len()
}

/// A path fully pushed: its registry row is clean and carries a
/// remote-assigned jid, and the remote ledger holds a committed record
/// for the path under that jid whose chunk ids are the store's content
/// for the path.
pub open spec fn pushed_state(
    reg: LocalRegistry,
    remote: RemoteModel,
    st: ChunkStore,
    p: Seq<char>,
) -> bool {
    &&& reg.has_record_spec(p)
    &&& !reg.record_spec(p).dirty
    &&& match reg.record_spec(p).jid {
        Some(v) => exists|m: int|
            0 <= m < remote.records@.len() && (#[trigger] remote.records@[m]).path@ == p
                && remote.records@[m].id == v && split_ids(remote.records@[m].chunk_ids@)
                == st.file_ids_spec(p),
        None => false,
    }
}

/// One iteration of the upload loop: pushes every locally modified
/// record, then decides the wait. With an empty backlog it waits the full
/// interval; with any backlog it reports no wait, so the next pass runs
/// at once. A record that fails stays dirty and is retried; when every
/// push succeeds, no record is left dirty.
#[verifier::loop_isolation(false)]
pub fn run_upload_iteration(
    store: &ChunkStore,
    reg: &mut LocalRegistry,
    remote: &mut RemoteModel,
) -> (r: UploadRoundReport)
    requires
        store.wf(),
        old(reg).wf(),
        old(remote).wf(),
        old(remote).next_jid + dirty_count(*old(reg)) <= i32::MAX,
    ensures
        final(reg).wf(),
        final(remote).wf(),
        r.wait == (dirty_count(*old(reg)) == 0),
        r.completed + r.failed == dirty_count(*old(reg)),
        r.failed == dirty_missing_count(*old(reg), *store),
        final(reg).watermark >= old(reg).watermark,
        forall|p: Seq<char>| #[trigger] final(reg).dirty_spec(p) ==> old(reg).dirty_spec(p),
        forall|k: Seq<char>|
            old(remote).has_chunk_spec(k) ==> #[trigger] final(remote).has_chunk_spec(k),
        final(remote).next_jid >= old(remote).next_jid,
        r.failed == 0 ==> forall|p: Seq<char>| !(#[trigger] final(reg).dirty_spec(p)),
        forall|p: Seq<char>|
            old(reg).dirty_spec(p) && !store.has_file_spec(p) ==> #[trigger] final(reg).dirty_spec(
                p,
            ),
        forall|p: Seq<char>|
            #[trigger] old(reg).dirty_spec(p) && store.has_file_spec(p) ==> pushed_state(
                *final(reg),
                *final(remote),
                *store,
                p,
            ),
{
    let to_upload = reg.locally_modified_records();
    let wait = to_upload.is_empty();
    let ghost lst = to_upload@;
    proof {
        lemma_filter_members(old(reg).records@, |x: RegistryRecord| x.dirty);
        assert forall|j: int| 0 <= j < lst.len() implies #[trigger] reg.has_record_spec(
            lst[j].path@,
        ) by {
            let jj = choose|jj: int|
                0 <= jj < old(reg).records@.len() && lst[j] == old(reg).records@[jj];
            assert(old(reg).records@[jj].path@ == lst[j].path@);
        }
        assert forall|p: Seq<char>| #[trigger] reg.dirty_spec(p) implies exists|j: int|
            0 <= j < lst.len() && lst[j].path@ == p by {
            let jj = choose|jj: int|
                0 <= jj < reg.records@.len() && reg.records@[jj].path@ == p;
            assert(reg.records@[jj].dirty);
            Seq::<RegistryRecord>::lemma_filter_contains(
                reg.records@,
                |x: RegistryRecord| x.dirty,
                jj,
            );
            let j = choose|j: int| 0 <= j < lst.len() && lst[j] == reg.records@[jj];
            assert(lst[j].path@ == p);
        }
    }
    let mut completed: usize = 0;
    let mut failed: usize = 0;
    let mut i: usize = 0;
    let ghost nofile = |x: RegistryRecord| !store.has_file_spec(x.path@);
    proof {
        assert(lst.subrange(0, 0) =~= Seq::<RegistryRecord>::empty());
        crate::seq_util::lemma_filter_empty::<RegistryRecord>(nofile);
    }
    while i < to_upload.len()
        invariant
            0 <= i <= to_upload.len(),
            lst == to_upload@,
            completed + failed == i,
            failed == lst.subrange(0, i as int).filter(nofile).len(),
            reg.wf(),
            remote.wf(),
            reg.watermark >= old(reg).watermark,
            remote.next_jid >= old(remote).next_jid,
            remote.next_jid + (lst.len() - i) <= i32::MAX,
            forall|j: int| 0 <= j < lst.len() ==> #[trigger] reg.has_record_spec(lst[j].path@),
            forall|p: Seq<char>| #[trigger] reg.dirty_spec(p) ==> old(reg).dirty_spec(p),
            forall|k: Seq<char>|
                old(remote).has_chunk_spec(k) ==> #[trigger] remote.has_chunk_spec(k),
            failed == 0 ==> forall|p: Seq<char>| #[trigger] reg.dirty_spec(p) ==> exists|j: int|
                i <= j < lst.len() && lst[j].path@ == p,
            forall|p: Seq<char>|
                old(reg).dirty_spec(p) && !store.has_file_spec(p) ==> #[trigger] reg.dirty_spec(p),
            forall|p: Seq<char>|
                #[trigger] old(reg).dirty_spec(p) && store.has_file_spec(p) ==> pushed_state(
                    *reg,
                    *remote,
                    *store,
                    p,
                ) || exists|j: int| i <= j < lst.len() && (#[trigger] lst[j]).path@ == p,
        decreases to_upload.len() - i,
    {
        let path_owned = to_upload[i].path.clone();
        let ghost reg_before = *reg;
        let ghost remote_before = *remote;
        proof {
            let pre = lst.subrange(0, i as int);
            assert(lst.subrange(0, i + 1) =~= pre + seq![lst[i as int]]);
            Seq::<RegistryRecord>::filter_distributes_over_add(pre, seq![lst[i as int]], nofile);
            crate::seq_util::lemma_filter_singleton(lst[i as int], nofile);
            assert(pre.filter(nofile) + Seq::<RegistryRecord>::empty() =~= pre.filter(nofile));
        }
        match push_record(store, reg, remote, &path_owned) {
            Ok(rep) => {
                completed = completed + 1;
                proof {
                    assert(store.has_file_spec(lst[i as int].path@));
                    let m = remote.records@.len() - 1;
                    assert(remote.records@[m] == remote.records@.last());
                    assert(remote.records@[m].path@ == path_owned@);
                    assert(remote.records@[m].id == rep.committed_jid);
                    assert(split_ids(remote.records@[m].chunk_ids@) == store.file_ids_spec(
                        path_owned@,
                    ));
                    assert(reg.record_spec(path_owned@).jid == Some(rep.committed_jid));
                    assert(!reg.record_spec(path_owned@).dirty);
                    assert(pushed_state(*reg, *remote, *store, path_owned@));
                }
            },
            Err(_e) => {
                failed = failed + 1;
                proof {
                    assert(!store.has_file_spec(lst[i as int].path@));
                }
            },
        }
        proof {
            assert forall|p: Seq<char>|
                old(reg).dirty_spec(p) && !store.has_file_spec(p) implies #[trigger] reg.dirty_spec(
                p,
            ) by {
                assert(reg_before.dirty_spec(p));
                if p == lst[i as int].path@ {
                    assert(reg.dirty_spec(p));
                } else {
                    assert(reg.has_record_spec(p) == reg_before.has_record_spec(p));
                    if reg_before.has_record_spec(p) {
                        assert(reg.record_spec(p) == reg_before.record_spec(p));
                    }
                }
            }
            assert forall|p: Seq<char>|
                #[trigger] old(reg).dirty_spec(p) && store.has_file_spec(p) implies (pushed_state(
                *reg,
                *remote,
                *store,
                p,
            ) || exists|j: int| i + 1 <= j < lst.len() && (#[trigger] lst[j]).path@ == p) by {
                if p == lst[i as int].path@ {
                    assert(pushed_state(*reg, *remote, *store, p));
                } else {
                    if pushed_state(reg_before, remote_before, *store, p) {
                        assert(reg.has_record_spec(p) == reg_before.has_record_spec(p));
                        assert(reg.record_spec(p) == reg_before.record_spec(p));
                        let v = reg_before.record_spec(p).jid.unwrap();
                        let m = choose|m: int|
                            0 <= m < remote_before.records@.len() && (
                            #[trigger] remote_before.records@[m]).path@ == p
                                && remote_before.records@[m].id == v && split_ids(
                                remote_before.records@[m].chunk_ids@,
                            ) == store.file_ids_spec(p);
                        assert(remote.records@[m] == remote_before.records@[m]) by {
                            if remote.records@.len() == remote_before.records@.len() + 1 {
                                assert(remote.records@.subrange(
                                    0,
                                    remote_before.records@.len() as int,
                                ) == remote_before.records@);
                                assert(remote.records@.subrange(
                                    0,
                                    remote_before.records@.len() as int,
                                )[m] == remote.records@[m]);
                            } else {
                                assert(*remote == remote_before);
                            }
                        }
                        assert(pushed_state(*reg, *remote, *store, p));
                    } else {
                        let j = choose|j: int| i <= j < lst.len() && (#[trigger] lst[j]).path@ == p;
                        assert(j != i);
                    }
                }
            }
            assert forall|p: Seq<char>| #[trigger] reg.dirty_spec(p) implies reg_before.dirty_spec(
                p,
            ) by {
                if p == lst[i as int].path@ {
                    assert(reg_before.dirty_spec(p) || !reg.dirty_spec(p));
                } else {
                    assert(reg.has_record_spec(p) == reg_before.has_record_spec(p));
                    if reg_before.has_record_spec(p) {
                        assert(reg.record_spec(p) == reg_before.record_spec(p));
                    }
                }
            }
            if failed == 0 {
                assert forall|p: Seq<char>| #[trigger] reg.dirty_spec(p) implies exists|j: int|
                    i + 1 <= j < lst.len() && lst[j].path@ == p by {
                    assert(reg_before.dirty_spec(p));
                    let j = choose|j: int| i <= j < lst.len() && lst[j].path@ == p;
                    if j == i {
                        assert(!reg.record_spec(p).dirty);
                        assert(!reg.dirty_spec(p));
                    }
                }
            }
        }
        i = i + 1;
    }
    proof {
        assert(lst.subrange(0, lst.len() as int) =~= lst);
    }
    UploadRoundReport { completed, failed, wait }
}

} // verus!
