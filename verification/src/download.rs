//! The download side of the synchronizer: applying one remote record to
//! the local replica, and one full polling iteration of the download
//! loop. Only chunks the store does not yet hold are fetched, and the
//! local watermark advances to the highest applied jid.

use vstd::prelude::*;
use vstd::string::*;
use crate::protocol::{comma_free, lemma_split_elements_comma_free, split_chunk_ids, split_ids,
    SyncError};
use crate::records::{build_file_record, ResponseFileRecord};
use crate::registry::LocalRegistry;
use crate::remote_model::RemoteModel;
use crate::store::ChunkStore;

verus! {

/// Seconds between two polling passes of the download loop.
pub const INTERVAL_CHECK_DOWNLOAD_SEC: u64 = 23;

/// The byte length of the file the id sequence reassembles: the sum of
/// the stored chunk lengths, in order.
pub open spec fn ids_total_len(st: ChunkStore, ids: Seq<Seq<char>>) -> int
    decreases ids.len(),
{
    if ids.len() == 0 {
        0
    } else {
        st.chunk_data_spec(ids[0]).len() + ids_total_len(st, ids.drop_first())
    }
}

proof fn lemma_ids_total_len_nonneg(st: ChunkStore, ids: Seq<Seq<char>>)
    ensures
        ids_total_len(st, ids) >= 0,
    decreases ids.len(),
{
    if ids.len() > 0 {
        lemma_ids_total_len_nonneg(st, ids.drop_first());
    }
}

/// Two stores holding the same chunk entries assign every id sequence the
/// same reassembled length.
proof fn lemma_ids_total_len_congruent(st1: ChunkStore, st2: ChunkStore, ids: Seq<Seq<char>>)
    requires
        st1.chunks@ == st2.chunks@,
    ensures
        ids_total_len(st1, ids) == ids_total_len(st2, ids),
    decreases ids.len(),
{
    if ids.len() > 0 {
        lemma_ids_total_len_congruent(st1, st2, ids.drop_first());
    }
}

/// Fetches from the remote exactly the listed chunks the store does not
/// hold, saving each under its id, and returns the ids fetched, each
/// once. Chunks the store already holds are left alone and never
/// re-downloaded.
#[verifier::loop_isolation(false)]
fn fetch_missing_chunks(store: &mut ChunkStore, remote: &RemoteModel, ids: &Vec<String>) -> (r:
    Result<Vec<String>, SyncError>)
    requires
        old(store).wf(),
        remote.wf(),
        forall|i: int| 0 <= i < ids.deep_view().len() ==> comma_free(#[trigger] ids.deep_view()[i]),
    ensures
        final(store).wf(),
        final(store).files == old(store).files,
        forall|k: Seq<char>|
            old(store).has_chunk_spec(k) ==> final(store).has_chunk_spec(k)
                && final(store).chunk_data_spec(k) == old(store).chunk_data_spec(k),
        forall|k: Seq<char>|
            #[trigger] final(store).has_chunk_spec(k) ==> old(store).has_chunk_spec(k)
                || ids.deep_view().contains(k),
        forall|k: Seq<char>|
            !old(store).has_chunk_spec(k) && #[trigger] final(store).has_chunk_spec(k)
                ==> final(store).chunk_data_spec(k) == remote.chunk_data_spec(k),
        match r {
            Ok(downloaded) => {
                &&& forall|k: Seq<char>|
                    ids.deep_view().contains(k) ==> #[trigger] final(store).has_chunk_spec(k)
                &&& downloaded.deep_view().no_duplicates()
                &&& forall|k: Seq<char>|
                    #[trigger] downloaded.deep_view().contains(k) <==> ids.deep_view().contains(k)
                        && !old(store).has_chunk_spec(k)
            },
            Err(e) => {
                &&& e == SyncError::ChunkNotFound
                &&& exists|k: Seq<char>|
                    ids.deep_view().contains(k) && !remote.has_chunk_spec(k)
            },
        },
{
    let ghost dv = ids.deep_view();
    let mut downloaded: Vec<String> = Vec::new();
    let mut k: usize = 0;
    proof {
        assert(dv.subrange(0, 0) =~= Seq::<Seq<char>>::empty());
    }
    while k < ids.len()
        invariant
            0 <= k <= ids.len(),
            store.wf(),
            store.files == old(store).files,
            forall|key: Seq<char>|
                #[trigger] store.has_chunk_spec(key) <==> old(store).has_chunk_spec(key)
                    || dv.subrange(0, k as int).contains(key),
            forall|key: Seq<char>|
                old(store).has_chunk_spec(key) ==> store.chunk_data_spec(key) == old(
                    store,
                ).chunk_data_spec(key),
            forall|key: Seq<char>|
                !old(store).has_chunk_spec(key) && #[trigger] store.has_chunk_spec(key)
                    ==> store.chunk_data_spec(key) == remote.chunk_data_spec(key),
            downloaded.deep_view().no_duplicates(),
            forall|key: Seq<char>|
                #[trigger] downloaded.deep_view().contains(key) <==> dv.subrange(
                    0,
                    k as int,
                ).contains(key) && !old(store).has_chunk_spec(key),
            forall|i: int|
                0 <= i < downloaded.deep_view().len() ==> store.has_chunk_spec(
                    #[trigger] downloaded.deep_view()[i],
                ),
        decreases ids.len() - k,
    {
        let c = &ids[k];
        proof {
            assert(dv[k as int] == ids@[k as int]@);
            assert(dv.subrange(0, k + 1) =~= dv.subrange(0, k as int).push(dv[k as int]));
        }
        if !store.check_chunk(c) {
            let data = match remote.download(c) {
                Ok(d) => d,
                Err(e) => {
                    proof {
                        assert(dv.contains(dv[k as int]));
                    }
                    return Err(e);
                },
            };
            let ghost old_downloaded = downloaded.deep_view();
            store.save_chunk(c, data);
            downloaded.push(c.clone());
            proof {
                assert(downloaded.deep_view() =~= old_downloaded.push(dv[k as int]));
                assert forall|key: Seq<char>| #[trigger] downloaded.deep_view().contains(key)
                    implies dv.subrange(0, k + 1).contains(key) && !old(store).has_chunk_spec(
                    key,
                ) by {
                    let j = choose|j: int|
                        0 <= j < downloaded.deep_view().len() && downloaded.deep_view()[j] == key;
                    if j < old_downloaded.len() {
                        assert(old_downloaded.contains(key));
                        assert(dv.subrange(0, k as int).contains(key));
                        let jj = choose|jj: int|
                            0 <= jj < k && dv.subrange(0, k as int)[jj] == key;
                        assert(dv.subrange(0, k + 1)[jj] == key);
                    } else {
                        assert(key == dv[k as int]);
                        assert(dv.subrange(0, k + 1).last() == key);
                    }
                }
                assert forall|key: Seq<char>|
                    dv.subrange(0, k + 1).contains(key) && !old(store).has_chunk_spec(key)
                        implies #[trigger] downloaded.deep_view().contains(key) by {
                    let sub = dv.subrange(0, k + 1);
                    let j = choose|j: int| 0 <= j < sub.len() && sub[j] == key;
                    if j < k {
                        assert(dv.subrange(0, k as int).contains(key));
                        assert(old_downloaded.contains(key));
                        let jj = choose|jj: int|
                            0 <= jj < old_downloaded.len() && old_downloaded[jj] == key;
                        assert(downloaded.deep_view()[jj] == key);
                    } else {
                        assert(key == dv[k as int]);
                        assert(downloaded.deep_view().last() == key);
                    }
                }
                assert forall|key: Seq<char>| #[trigger] store.has_chunk_spec(key) implies (old(
                    store,
                ).has_chunk_spec(key) || dv.subrange(0, k + 1).contains(key)) by {
                    if key != dv[k as int] {
                        if !old(store).has_chunk_spec(key) {
                            assert(dv.subrange(0, k as int).contains(key));
                            let jj = choose|jj: int|
                                0 <= jj < k && dv.subrange(0, k as int)[jj] == key;
                            assert(dv.subrange(0, k + 1)[jj] == key);
                        }
                    } else {
                        assert(dv.subrange(0, k + 1).last() == key);
                    }
                }
                assert forall|key: Seq<char>|
                    old(store).has_chunk_spec(key) || dv.subrange(0, k + 1).contains(key)
                        implies #[trigger] store.has_chunk_spec(key) by {
                    if !old(store).has_chunk_spec(key) {
                        let sub = dv.subrange(0, k + 1);
                        let j = choose|j: int| 0 <= j < sub.len() && sub[j] == key;
                        if j < k {
                            assert(dv.subrange(0, k as int).contains(key));
                        }
                    }
                }
            }
        } else {
            proof {
                assert forall|key: Seq<char>| #[trigger] store.has_chunk_spec(key) implies (old(
                    store,
                ).has_chunk_spec(key) || dv.subrange(0, k + 1).contains(key)) by {
                    if !old(store).has_chunk_spec(key) {
                        assert(dv.subrange(0, k as int).contains(key));
                        let jj = choose|jj: int| 0 <= jj < k && dv.subrange(0, k as int)[jj] == key;
                        assert(dv.subrange(0, k + 1)[jj] == key);
                    }
                }
                assert forall|key: Seq<char>|
                    old(store).has_chunk_spec(key) || dv.subrange(0, k + 1).contains(key)
                        implies #[trigger] store.has_chunk_spec(key) by {
                    if !old(store).has_chunk_spec(key) {
                        let sub = dv.subrange(0, k + 1);
                        let j = choose|j: int| 0 <= j < sub.len() && sub[j] == key;
                        if j < k {
                            assert(dv.subrange(0, k as int).contains(key));
                        } else {
                            assert(key == dv[k as int]);
                        }
                    }
                }
                assert forall|key: Seq<char>| #[trigger] downloaded.deep_view().contains(key)
                    implies dv.subrange(0, k + 1).contains(key) && !old(store).has_chunk_spec(
                    key,
                ) by {
                    assert(dv.subrange(0, k as int).contains(key));
                    let jj = choose|jj: int| 0 <= jj < k && dv.subrange(0, k as int)[jj] == key;
                    assert(dv.subrange(0, k + 1)[jj] == key);
                }
                assert forall|key: Seq<char>|
                    dv.subrange(0, k + 1).contains(key) && !old(store).has_chunk_spec(key)
                        implies #[trigger] downloaded.deep_view().contains(key) by {
                    let sub = dv.subrange(0, k + 1);
                    let j = choose|j: int| 0 <= j < sub.len() && sub[j] == key;
                    if j < k {
                        assert(dv.subrange(0, k as int).contains(key));
                    } else {
                        assert(key == dv[k as int]);
                        assert(store.has_chunk_spec(key));
                        assert(dv.subrange(0, k as int).contains(key));
                    }
                }
            }
        }
        k = k + 1;
    }
    proof {
        assert(dv.subrange(0, dv.len() as int) =~= dv);
    }
    Ok(downloaded)
}

/// The byte length of the file the listed ids reassemble, read from the
/// store; fails only when the total does not fit the size field.
#[verifier::loop_isolation(false)]
fn reassembled_size(store: &ChunkStore, ids: &Vec<String>) -> (r: Result<i64, SyncError>)
    requires
        store.wf(),
        forall|i: int|
            0 <= i < ids.deep_view().len() ==> store.has_chunk_spec(#[trigger] ids.deep_view()[i]),
    ensures
        match r {
            Ok(s) => 0 <= s && s == ids_total_len(*store, ids.deep_view()),
            Err(e) => e == SyncError::LocalIoError && ids_total_len(*store, ids.deep_view())
                > i64::MAX,
        },
{
    let ghost dv = ids.deep_view();
    let mut size: i64 = 0;
    let mut t: usize = 0;
    proof {
        assert(dv.skip(0) =~= dv);
        lemma_ids_total_len_nonneg(*store, dv);
    }
    while t < ids.len()
        invariant
            0 <= t <= ids.len(),
            0 <= size,
            size + ids_total_len(*store, dv.skip(t as int)) == ids_total_len(*store, dv),
            ids_total_len(*store, dv.skip(t as int)) >= 0,
        decreases ids.len() - t,
    {
        proof {
            assert(dv.skip(t as int).drop_first() =~= dv.skip(t + 1));
            assert(dv.skip(t as int)[0] == dv[t as int]);
            lemma_ids_total_len_nonneg(*store, dv.skip(t + 1));
        }
        let d = match store.read_chunk(&ids[t]) {
            Ok(d) => d,
            Err(_) => {
                proof {
                    assert(dv[t as int] == ids@[t as int]@);
                    assert(store.has_chunk_spec(dv[t as int]));
                    assert(false);
                }
                return Err(SyncError::LocalIoError);
            },
        };
        proof {
            assert(dv[t as int] == ids@[t as int]@);
        }
        let l = d.len();
        if (l as u64) > ((i64::MAX - size) as u64) {
            proof {
                assert(ids_total_len(*store, dv.skip(t as int)) == d@.len() + ids_total_len(
                    *store,
                    dv.skip(t + 1),
                ));
                assert(ids_total_len(*store, dv) > i64::MAX);
            }
            return Err(SyncError::LocalIoError);
        }
        size = size + (l as i64);
        t = t + 1;
    }
    proof {
        assert(dv.skip(dv.len() as int) =~= Seq::<Seq<char>>::empty());
    }
    Ok(size)
}

/// Applies one listed remote record: fetches exactly the chunks the store
/// is missing, reassembles the file at the record's path, and registers
/// the record locally under the remote's jid. Returns the ids it
/// downloaded. A failure leaves the file table and the registry exactly
/// as they were, so the record is retried on a later iteration.
pub fn apply_remote_record(
    store: &mut ChunkStore,
    reg: &mut LocalRegistry,
    remote: &RemoteModel,
    rec: &ResponseFileRecord,
    modified_at: i64,
) -> (r: Result<Vec<String>, SyncError>)
    requires
        old(store).wf(),
        old(reg).wf(),
        remote.wf(),
        rec.id >= 0,
    ensures
        final(store).wf(),
        final(reg).wf(),
        forall|k: Seq<char>|
            old(store).has_chunk_spec(k) ==> final(store).has_chunk_spec(k)
                && final(store).chunk_data_spec(k) == old(store).chunk_data_spec(k),
        forall|k: Seq<char>|
            #[trigger] final(store).has_chunk_spec(k) ==> old(store).has_chunk_spec(k) || split_ids(
                rec.chunk_ids@,
            ).contains(k),
        forall|k: Seq<char>|
            !old(store).has_chunk_spec(k) && #[trigger] final(store).has_chunk_spec(k)
                ==> final(store).chunk_data_spec(k) == remote.chunk_data_spec(k),
        match r {
            Ok(downloaded) => {
                &&& forall|k: Seq<char>|
                    split_ids(rec.chunk_ids@).contains(k)
                        ==> #[trigger] final(store).has_chunk_spec(k)
                &&& forall|k: Seq<char>|
                    split_ids(rec.chunk_ids@).contains(k) && !old(store).has_chunk_spec(k)
                        ==> final(store).chunk_data_spec(k) == remote.chunk_data_spec(k)
                &&& downloaded.deep_view().no_duplicates()
                &&& forall|k: Seq<char>|
                    #[trigger] downloaded.deep_view().contains(k) <==> split_ids(
                        rec.chunk_ids@,
                    ).contains(k) && !old(store).has_chunk_spec(k)
                &&& final(store).has_file_spec(rec.path@)
                &&& final(store).file_ids_spec(rec.path@) == split_ids(rec.chunk_ids@)
                &&& forall|p: Seq<char>|
                    p != rec.path@ ==> final(store).has_file_spec(p) == old(store).has_file_spec(p)
                &&& forall|p: Seq<char>|
                    p != rec.path@ && old(store).has_file_spec(p) ==> final(store).file_ids_spec(p)
                        == old(store).file_ids_spec(p)
                &&& final(reg).has_record_spec(rec.path@)
                &&& ({
                    let rr = final(reg).record_spec(rec.path@);
                    rr.jid == Some(rec.id) && !rr.dirty && rr.modified_at == modified_at
                        && rr.size == ids_total_len(*final(store), split_ids(rec.chunk_ids@))
                })
                &&& forall|p: Seq<char>|
                    p != rec.path@ ==> final(reg).has_record_spec(p) == old(reg).has_record_spec(p)
                &&& forall|p: Seq<char>|
                    p != rec.path@ && old(reg).has_record_spec(p) ==> final(reg).record_spec(p)
                        == old(reg).record_spec(p)
                &&& final(reg).watermark == if rec.id > old(reg).watermark {
                    rec.id
                } else {
                    old(reg).watermark
                }
            },
            Err(e) => {
                &&& (e == SyncError::ChunkNotFound || e == SyncError::LocalIoError)
                &&& (e == SyncError::ChunkNotFound ==> exists|k: Seq<char>|
                    split_ids(rec.chunk_ids@).contains(k) && !remote.has_chunk_spec(k))
                &&& (e == SyncError::LocalIoError ==> (forall|k: Seq<char>|
                    split_ids(rec.chunk_ids@).contains(k)
                        ==> #[trigger] final(store).has_chunk_spec(k)) && ids_total_len(
                    *final(store),
                    split_ids(rec.chunk_ids@),
                ) > i64::MAX)
                &&& final(store).files == old(store).files
                &&& *final(reg) == *old(reg)
            },
        },
{
    let chunks_list = split_chunk_ids(rec.chunk_ids.as_str());
    proof {
        lemma_split_elements_comma_free(rec.chunk_ids@);
    }
    let downloaded = match fetch_missing_chunks(store, remote, &chunks_list) {
        Ok(d) => d,
        Err(e) => {
            return Err(e);
        },
    };
    let size = match reassembled_size(store, &chunks_list) {
        Ok(s) => s,
        Err(e) => {
            return Err(e);
        },
    };
    let ghost st_mid = *store;
    store.save_file(&rec.path, chunks_list);
    proof {
        lemma_ids_total_len_congruent(st_mid, *store, split_ids(rec.chunk_ids@));
        assert forall|k: Seq<char>|
            #![trigger store.has_chunk_spec(k)]
            store.has_chunk_spec(k) == st_mid.has_chunk_spec(k) by {
            assert(store.chunks@ == st_mid.chunks@);
        }
        assert forall|k: Seq<char>|
            #![trigger store.chunk_data_spec(k)]
            store.chunk_data_spec(k) == st_mid.chunk_data_spec(k) by {
            assert(store.chunks@ == st_mid.chunks@);
        }
        assert forall|k: Seq<char>|
            split_ids(rec.chunk_ids@).contains(k) && !old(store).has_chunk_spec(k)
                implies store.chunk_data_spec(k) == remote.chunk_data_spec(k) by {
            assert(st_mid.has_chunk_spec(k));
            assert(st_mid.chunk_data_spec(k) == remote.chunk_data_spec(k));
        }
        assert forall|k: Seq<char>|
            !old(store).has_chunk_spec(k) && #[trigger] store.has_chunk_spec(k)
                implies store.chunk_data_spec(k) == remote.chunk_data_spec(k) by {
            assert(st_mid.has_chunk_spec(k));
            assert(st_mid.chunk_data_spec(k) == remote.chunk_data_spec(k));
        }
    }
    let form = build_file_record(rec.path.as_str(), rec.id, size, modified_at);
    reg.upsert_record(form);
    Ok(downloaded)
}

/// Deduplication bound: a download list with no duplicates whose members
/// are exactly the listed ids that are absent from the store is never
/// longer than the count of absent ids in the listing — the number of
/// download calls is at most the number of chunk ids not already present.
pub proof fn lemma_download_count_bound(
    downloaded: Seq<Seq<char>>,
    ids: Seq<Seq<char>>,
    absent: spec_fn(Seq<char>) -> bool,
)
    requires
        downloaded.no_duplicates(),
        forall|k: Seq<char>| #[trigger] downloaded.contains(k) <==> ids.contains(k) && absent(k),
    ensures
        downloaded.len() <= ids.filter(absent).len(),
{
    broadcast use vstd::seq_lib::group_seq_properties;

    let f = ids.filter(absent);
    downloaded.unique_seq_to_set();
    f.lemma_cardinality_of_set();
    assert forall|k: Seq<char>| downloaded.to_set().contains(k) implies f.to_set().contains(
        k,
    ) by {
        assert(downloaded.contains(k));
        assert(ids.contains(k) && absent(k));
        let j = choose|j: int| 0 <= j < ids.len() && ids[j] == k;
        Seq::<Seq<char>>::lemma_filter_contains(ids, absent, j);
        assert(f.contains(k));
    }
    vstd::set_lib::lemma_len_subset(downloaded.to_set(), f.to_set());
}

/// Idempotent apply, completed: once a pass has raised the watermark to
/// cover every record it listed, nothing is left above the new watermark,
/// so the next pass against an unchanged remote lists nothing and — by
/// the iteration's contract — changes nothing.
pub proof fn lemma_second_pass_lists_nothing(
    records: Seq<ResponseFileRecord>,
    over0: Seq<ResponseFileRecord>,
    w0: int,
    w1: int,
)
    requires
        w1 >= w0,
        over0 == records.filter(|x: ResponseFileRecord| x.id > w0),
        forall|i: int| 0 <= i < over0.len() ==> w1 >= (#[trigger] over0[i]).id,
    ensures
        records.filter(|x: ResponseFileRecord| x.id > w1) =~= Seq::<ResponseFileRecord>::empty(),
{
    let over1 = records.filter(|x: ResponseFileRecord| x.id > w1);
    crate::seq_util::lemma_filter_members(records, |x: ResponseFileRecord| x.id > w1);
    if over1.len() > 0 {
        Seq::<ResponseFileRecord>::lemma_filter_pred(
            records,
            |x: ResponseFileRecord| x.id > w1,
            0,
        );
        let e = over1[0];
        let j = choose|j: int| 0 <= j < records.len() && over1[0] == records[j];
        assert(e.id > w1);
        assert(e.id > w0);
        Seq::<ResponseFileRecord>::lemma_filter_contains(
            records,
            |x: ResponseFileRecord| x.id > w0,
            j,
        );
        let i = choose|i: int| 0 <= i < over0.len() && over0[i] == e;
        assert(w1 >= over0[i].id);
        assert(false);
    }
}

/// Whether any record of the listing references the chunk id `k`.
pub open spec fn listed_needs(lst: Seq<ResponseFileRecord>, k: Seq<char>) -> bool {
    exists|i: int| 0 <= i < lst.len() && split_ids((#[trigger] lst[i]).chunk_ids@).contains(k)
}

/// The local watermark after one completed download pass: unchanged when
/// nothing is listed above it, else the last (highest) listed jid.
pub open spec fn pass_watermark(records: Seq<ResponseFileRecord>, w: int) -> int {
    let lst = records.filter(|x: ResponseFileRecord| x.id > w);
    if lst.len() == 0 {
        w
    } else {
        lst.last().id as int
    }
}

/// The local watermark after a number of completed download passes
/// against an unchanged remote ledger, each pass behaving as
/// `pass_watermark` says.
pub open spec fn watermark_after_passes(
    records: Seq<ResponseFileRecord>,
    w0: int,
    n: nat,
) -> int
    decreases n,
{
    if n == 0 {
        w0
    } else {
        pass_watermark(records, watermark_after_passes(records, w0, (n - 1) as nat))
    }
}

/// One completed pass never lowers the watermark.
pub proof fn lemma_pass_watermark_non_decreasing(records: Seq<ResponseFileRecord>, w: int)
    ensures
        pass_watermark(records, w) >= w,
{
    let lst = records.filter(|x: ResponseFileRecord| x.id > w);
    if lst.len() > 0 {
        Seq::<ResponseFileRecord>::lemma_filter_pred(
            records,
            |x: ResponseFileRecord| x.id > w,
            lst.len() - 1,
        );
    }
}

/// Watermark monotonicity over any number of download passes against an
/// unchanged remote whose ledger is in increasing jid order: the recorded
/// watermark never decreases from one pass to the next, and from the
/// first completed pass on it stands at the highest jid among the applied
/// records — later passes apply nothing and leave it there.
pub proof fn lemma_watermark_monotonic_over_passes(
    records: Seq<ResponseFileRecord>,
    w0: int,
    n: nat,
)
    requires
        forall|i: int, j: int| 0 <= i < j < records.len() ==> records[i].id < records[j].id,
    ensures
        watermark_after_passes(records, w0, n) >= w0,
        watermark_after_passes(records, w0, (n + 1) as nat) >= watermark_after_passes(
            records,
            w0,
            n,
        ),
        n >= 1 ==> watermark_after_passes(records, w0, n) == pass_watermark(records, w0),
    decreases n,
{
    if n == 0 {
        lemma_pass_watermark_non_decreasing(records, w0);
    } else {
        lemma_watermark_monotonic_over_passes(records, w0, (n - 1) as nat);
        lemma_pass_watermark_non_decreasing(records, w0);
        let w1 = pass_watermark(records, w0);
        let lst0 = records.filter(|x: ResponseFileRecord| x.id > w0);
        if lst0.len() == 0 {
            assert(w1 == w0);
        } else {
            crate::remote_model::lemma_filter_keeps_order(
                records,
                |x: ResponseFileRecord| x.id > w0,
            );
            assert forall|i: int| 0 <= i < lst0.len() implies w1 >= (#[trigger] lst0[i]).id by {
                if i < lst0.len() - 1 {
                    assert(lst0[i].id < lst0[lst0.len() - 1].id);
                }
            }
            lemma_second_pass_lists_nothing(records, lst0, w0, w1);
            assert(records.filter(|x: ResponseFileRecord| x.id > w1)
                =~= Seq::<ResponseFileRecord>::empty());
            assert(pass_watermark(records, w1) == w1);
        }
        assert(watermark_after_passes(records, w0, n) == pass_watermark(records, w0));
    }
}

/// What one download iteration did: the chunk ids fetched over the wire
/// and how many listed records were applied.
pub struct DownloadReport {
    pub fetched: Vec<String>,
    pub applied: usize,
}

/// One polling iteration of the download loop: reads the local watermark,
/// lists every remote record past it, and applies them in jid order. The
/// watermark ends at the highest applied jid and never moves backwards;
/// an unchanged remote lists nothing and the iteration changes nothing.
/// A record that fails stops the iteration before the watermark passes
/// it, so it is retried on the next interval.
#[verifier::loop_isolation(false)]
pub fn run_download_iteration(
    store: &mut ChunkStore,
    reg: &mut LocalRegistry,
    remote: &RemoteModel,
    modified_at: i64,
) -> (r: Result<DownloadReport, SyncError>)
    requires
        old(store).wf(),
        old(reg).wf(),
        remote.wf(),
    ensures
        final(store).wf(),
        final(reg).wf(),
        final(reg).watermark >= old(reg).watermark,
        forall|k: Seq<char>|
            old(store).has_chunk_spec(k) ==> #[trigger] final(store).has_chunk_spec(k)
                && final(store).chunk_data_spec(k) == old(store).chunk_data_spec(k),
        forall|k: Seq<char>|
            !old(store).has_chunk_spec(k) && #[trigger] final(store).has_chunk_spec(k)
                ==> final(store).chunk_data_spec(k) == remote.chunk_data_spec(k),
        forall|k: Seq<char>|
            #[trigger] final(store).has_chunk_spec(k) ==> old(store).has_chunk_spec(k)
                || listed_needs(
                remote.records@.filter(|x: ResponseFileRecord| x.id > old(reg).watermark),
                k,
            ),
        match r {
            Ok(rep) => ({
                let lst = remote.records@.filter(
                    |x: ResponseFileRecord| x.id > old(reg).watermark,
                );
                &&& rep.applied == lst.len()
                &&& final(reg).watermark == pass_watermark(
                    remote.records@,
                    old(reg).watermark as int,
                )
                &&& final(reg).watermark == if lst.len() == 0 {
                    old(reg).watermark
                } else {
                    lst.last().id
                }
                &&& forall|i: int|
                    0 <= i < lst.len() ==> final(reg).watermark >= (#[trigger] lst[i]).id
                &&& (lst.len() == 0 ==> *final(store) == *old(store) && *final(reg) == *old(reg)
                    && rep.fetched.len() == 0)
                &&& forall|i: int|
                    0 <= i < lst.len() ==> final(store).has_file_spec((#[trigger] lst[i]).path@)
                        && final(reg).has_record_spec(lst[i].path@)
                &&& forall|k: Seq<char>|
                    listed_needs(lst, k) ==> #[trigger] final(store).has_chunk_spec(k)
                &&& rep.fetched.deep_view().no_duplicates()
                &&& forall|k: Seq<char>|
                    #[trigger] rep.fetched.deep_view().contains(k) <==> listed_needs(lst, k)
                        && !old(store).has_chunk_spec(k)
                &&& forall|i: int|
                    #![trigger lst[i]]
                    (0 <= i < lst.len() && (forall|j: int|
                        i < j < lst.len() ==> (#[trigger] lst[j]).path@ != lst[i].path@)) ==> (
                    final(store).file_ids_spec(lst[i].path@) == split_ids(lst[i].chunk_ids@)
                        && final(reg).record_spec(lst[i].path@).jid == Some(lst[i].id)
                        && !final(reg).record_spec(lst[i].path@).dirty)
            }),
            Err(e) => ({
                let lst = remote.records@.filter(
                    |x: ResponseFileRecord| x.id > old(reg).watermark,
                );
                &&& (e == SyncError::ChunkNotFound || e == SyncError::LocalIoError)
                &&& (e == SyncError::ChunkNotFound ==> exists|i: int|
                    0 <= i < lst.len() && exists|k: Seq<char>|
                        split_ids((#[trigger] lst[i]).chunk_ids@).contains(k)
                            && !remote.has_chunk_spec(k))
                &&& (e == SyncError::LocalIoError ==> exists|i: int|
                    0 <= i < lst.len() && (forall|k: Seq<char>|
                        #[trigger] split_ids(lst[i].chunk_ids@).contains(k)
                            ==> final(store).has_chunk_spec(k)) && ids_total_len(
                        *final(store),
                        split_ids(lst[i].chunk_ids@),
                    ) > i64::MAX)
            }),
        },
{
    let w0 = reg.latest_watermark();
    let listing = remote.list(w0);
    let mut fetched: Vec<String> = Vec::new();
    let mut i: usize = 0;
    proof {
        assert(listing@.subrange(0, 0) =~= Seq::<ResponseFileRecord>::empty());
        assert(fetched.deep_view() =~= Seq::<Seq<char>>::empty());
    }
    while i < listing.len()
        invariant
            0 <= i <= listing.len(),
            store.wf(),
            reg.wf(),
            reg.watermark == if i == 0 {
                w0
            } else {
                listing@[i - 1].id
            },
            forall|k: Seq<char>|
                old(store).has_chunk_spec(k) ==> #[trigger] store.has_chunk_spec(k)
                    && store.chunk_data_spec(k) == old(store).chunk_data_spec(k),
            forall|k: Seq<char>|
                !old(store).has_chunk_spec(k) && #[trigger] store.has_chunk_spec(k)
                    ==> store.chunk_data_spec(k) == remote.chunk_data_spec(k),
            forall|k: Seq<char>|
                #[trigger] store.has_chunk_spec(k) <==> old(store).has_chunk_spec(k)
                    || listed_needs(listing@.subrange(0, i as int), k),
            fetched.deep_view().no_duplicates(),
            forall|k: Seq<char>|
                #[trigger] fetched.deep_view().contains(k) <==> listed_needs(
                    listing@.subrange(0, i as int),
                    k,
                ) && !old(store).has_chunk_spec(k),
            forall|idx: int|
                0 <= idx < fetched.deep_view().len() ==> store.has_chunk_spec(
                    #[trigger] fetched.deep_view()[idx],
                ),
            forall|j: int|
                0 <= j < i ==> store.has_file_spec((#[trigger] listing@[j]).path@)
                    && reg.has_record_spec(listing@[j].path@),
            forall|j: int|
                #![trigger listing@[j]]
                (0 <= j < i && (forall|j2: int|
                    j < j2 < i ==> (#[trigger] listing@[j2]).path@ != listing@[j].path@)) ==> (
                store.file_ids_spec(listing@[j].path@) == split_ids(listing@[j].chunk_ids@)
                    && reg.record_spec(listing@[j].path@).jid == Some(listing@[j].id)
                    && !reg.record_spec(listing@[j].path@).dirty),
            i == 0 ==> *store == *old(store) && *reg == *old(reg) && fetched.len() == 0,
        decreases listing.len() - i,
    {
        let rec = &listing[i];
        let ghost s_mid = *store;
        let mut dl = match apply_remote_record(store, reg, remote, rec, modified_at) {
            Ok(d) => d,
            Err(e) => {
                proof {
                    assert forall|k: Seq<char>|
                        old(store).has_chunk_spec(k) implies #[trigger] store.has_chunk_spec(k)
                        && store.chunk_data_spec(k) == old(store).chunk_data_spec(k) by {
                        assert(s_mid.has_chunk_spec(k));
                        assert(s_mid.chunk_data_spec(k) == old(store).chunk_data_spec(k));
                    }
                    assert forall|k: Seq<char>|
                        !old(store).has_chunk_spec(k) && #[trigger] store.has_chunk_spec(k)
                            implies store.chunk_data_spec(k) == remote.chunk_data_spec(k) by {
                        if s_mid.has_chunk_spec(k) {
                            assert(s_mid.chunk_data_spec(k) == remote.chunk_data_spec(k));
                            assert(store.chunk_data_spec(k) == s_mid.chunk_data_spec(k));
                        }
                    }
                    assert forall|k: Seq<char>| #[trigger] store.has_chunk_spec(k) implies (old(
                        store,
                    ).has_chunk_spec(k) || listed_needs(listing@, k)) by {
                        if !old(store).has_chunk_spec(k) {
                            if s_mid.has_chunk_spec(k) {
                                let sub_i = listing@.subrange(0, i as int);
                                assert(listed_needs(sub_i, k));
                                let j = choose|j: int|
                                    0 <= j < sub_i.len() && split_ids(
                                        sub_i[j].chunk_ids@,
                                    ).contains(k);
                                assert(listing@[j] == sub_i[j]);
                                assert(split_ids(listing@[j].chunk_ids@).contains(k));
                            } else {
                                assert(split_ids(listing@[i as int].chunk_ids@).contains(k));
                            }
                        }
                    }
                    if e == SyncError::ChunkNotFound {
                        assert(exists|k: Seq<char>|
                            split_ids(listing@[i as int].chunk_ids@).contains(k)
                                && !remote.has_chunk_spec(k));
                    }
                    if e == SyncError::LocalIoError {
                        assert(forall|k: Seq<char>|
                            #[trigger] split_ids(listing@[i as int].chunk_ids@).contains(k)
                                ==> store.has_chunk_spec(k));
                        assert(ids_total_len(*store, split_ids(listing@[i as int].chunk_ids@))
                            > i64::MAX);
                    }
                }
                return Err(e);
            },
        };
        let ghost dl_dv = dl.deep_view();
        let ghost pre_fetched = fetched.deep_view();
        fetched.append(&mut dl);
        proof {
            assert(listing@[i as int].id > w0);
            if i > 0 {
                assert(listing@[i - 1].id < listing@[i as int].id);
            }
            assert(reg.watermark == listing@[i as int].id);
            let sub_i = listing@.subrange(0, i as int);
            let sub_n = listing@.subrange(0, i + 1);
            assert(sub_n[i as int] == listing@[i as int]);
            assert(fetched.deep_view() =~= pre_fetched + dl_dv);
            // the chunk data is pinned: old bytes kept, new bytes are the remote's
            assert forall|k: Seq<char>|
                old(store).has_chunk_spec(k) implies #[trigger] store.has_chunk_spec(k)
                && store.chunk_data_spec(k) == old(store).chunk_data_spec(k) by {
                assert(s_mid.has_chunk_spec(k));
                assert(s_mid.chunk_data_spec(k) == old(store).chunk_data_spec(k));
            }
            assert forall|k: Seq<char>|
                !old(store).has_chunk_spec(k) && #[trigger] store.has_chunk_spec(k)
                    implies store.chunk_data_spec(k) == remote.chunk_data_spec(k) by {
                if s_mid.has_chunk_spec(k) {
                    assert(s_mid.chunk_data_spec(k) == remote.chunk_data_spec(k));
                    assert(store.chunk_data_spec(k) == s_mid.chunk_data_spec(k));
                }
            }
            // presence after this record: what was there, plus what the
            // prefix including it references
            assert forall|k: Seq<char>| #[trigger] store.has_chunk_spec(k) implies (old(
                store,
            ).has_chunk_spec(k) || listed_needs(sub_n, k)) by {
                if !old(store).has_chunk_spec(k) {
                    if s_mid.has_chunk_spec(k) {
                        assert(listed_needs(sub_i, k));
                        let j = choose|j: int|
                            0 <= j < sub_i.len() && split_ids(sub_i[j].chunk_ids@).contains(k);
                        assert(sub_n[j] == sub_i[j]);
                        assert(split_ids(sub_n[j].chunk_ids@).contains(k));
                    } else {
                        assert(split_ids(sub_n[i as int].chunk_ids@).contains(k));
                    }
                }
            }
            assert forall|k: Seq<char>|
                old(store).has_chunk_spec(k) || listed_needs(sub_n, k)
                    implies #[trigger] store.has_chunk_spec(k) by {
                if !old(store).has_chunk_spec(k) {
                    let j = choose|j: int|
                        0 <= j < sub_n.len() && split_ids(sub_n[j].chunk_ids@).contains(k);
                    if j < i {
                        assert(sub_i[j] == sub_n[j]);
                        assert(listed_needs(sub_i, k));
                        assert(s_mid.has_chunk_spec(k));
                    } else {
                        assert(split_ids(rec.chunk_ids@).contains(k));
                    }
                }
            }
            // the fetch log: no chunk fetched twice, and exactly the
            // needed absent ones
            assert forall|x: Seq<char>| pre_fetched.contains(x) implies !dl_dv.contains(x) by {
                let idx = choose|idx: int| 0 <= idx < pre_fetched.len() && pre_fetched[idx] == x;
                assert(s_mid.has_chunk_spec(x));
                if dl_dv.contains(x) {
                    assert(!s_mid.has_chunk_spec(x));
                }
            }
            crate::seq_util::lemma_concat_no_dup(pre_fetched, dl_dv);
            assert forall|idx: int| 0 <= idx < fetched.deep_view().len() implies
                store.has_chunk_spec(#[trigger] fetched.deep_view()[idx]) by {
                if idx < pre_fetched.len() {
                    assert(fetched.deep_view()[idx] == pre_fetched[idx]);
                    assert(s_mid.has_chunk_spec(pre_fetched[idx]));
                } else {
                    let x = dl_dv[idx - pre_fetched.len()];
                    assert(fetched.deep_view()[idx] == x);
                    assert(dl_dv.contains(x));
                    assert(split_ids(rec.chunk_ids@).contains(x));
                }
            }
            assert forall|k: Seq<char>| #[trigger] fetched.deep_view().contains(k) implies (
            listed_needs(sub_n, k) && !old(store).has_chunk_spec(k)) by {
                let idx = choose|idx: int|
                    0 <= idx < fetched.deep_view().len() && fetched.deep_view()[idx] == k;
                if idx < pre_fetched.len() {
                    assert(pre_fetched[idx] == k);
                    assert(pre_fetched.contains(k));
                    assert(listed_needs(sub_i, k));
                    let j = choose|j: int|
                        0 <= j < sub_i.len() && split_ids(sub_i[j].chunk_ids@).contains(k);
                    assert(sub_n[j] == sub_i[j]);
                    assert(split_ids(sub_n[j].chunk_ids@).contains(k));
                } else {
                    assert(fetched.deep_view()[idx] == dl_dv[idx - pre_fetched.len()]);
                    assert(dl_dv.contains(k));
                    assert(split_ids(rec.chunk_ids@).contains(k));
                    assert(!s_mid.has_chunk_spec(k));
                    assert(split_ids(sub_n[i as int].chunk_ids@).contains(k));
                }
            }
            assert forall|k: Seq<char>|
                listed_needs(sub_n, k) && !old(store).has_chunk_spec(k)
                    implies #[trigger] fetched.deep_view().contains(k) by {
                let j = choose|j: int|
                    0 <= j < sub_n.len() && split_ids(sub_n[j].chunk_ids@).contains(k);
                if j < i {
                    assert(sub_i[j] == sub_n[j]);
                    assert(listed_needs(sub_i, k));
                    assert(pre_fetched.contains(k));
                    let idx = choose|idx: int|
                        0 <= idx < pre_fetched.len() && pre_fetched[idx] == k;
                    assert(fetched.deep_view()[idx] == k);
                } else {
                    assert(split_ids(rec.chunk_ids@).contains(k));
                    if s_mid.has_chunk_spec(k) {
                        assert(listed_needs(sub_i, k));
                        assert(pre_fetched.contains(k));
                        let idx = choose|idx: int|
                            0 <= idx < pre_fetched.len() && pre_fetched[idx] == k;
                        assert(fetched.deep_view()[idx] == k);
                    } else {
                        assert(dl_dv.contains(k));
                        let idx = choose|idx: int| 0 <= idx < dl_dv.len() && dl_dv[idx] == k;
                        assert(fetched.deep_view()[pre_fetched.len() + idx] == k);
                    }
                }
            }
            assert forall|j: int| 0 <= j < i + 1 implies store.has_file_spec(
                (#[trigger] listing@[j]).path@,
            ) && reg.has_record_spec(listing@[j].path@) by {
                if j < i {
                    if listing@[j].path@ != rec.path@ {
                    }
                }
            }
            // the last record applied for a path settles its file content
            // and registry row
            assert forall|j: int|
                #![trigger listing@[j]]
                (0 <= j < i + 1 && (forall|j2: int|
                    j < j2 < i + 1 ==> (#[trigger] listing@[j2]).path@ != listing@[j].path@))
                implies (store.file_ids_spec(listing@[j].path@) == split_ids(
                listing@[j].chunk_ids@,
            ) && reg.record_spec(listing@[j].path@).jid == Some(listing@[j].id) && !reg.record_spec(
                listing@[j].path@,
            ).dirty) by {
                if j == i {
                } else {
                    assert(listing@[j].path@ != listing@[i as int].path@);
                    assert(forall|j2: int|
                        j < j2 < i ==> (#[trigger] listing@[j2]).path@ != listing@[j].path@);
                }
            }
        }
        i = i + 1;
    }
    proof {
        let lst = remote.records@.filter(|x: ResponseFileRecord| x.id > old(reg).watermark);
        assert(listing@ == lst);
        assert(listing@.subrange(0, listing@.len() as int) =~= listing@);
        if lst.len() > 0 {
            assert(reg.watermark == lst.last().id);
            assert forall|j: int| 0 <= j < lst.len() implies reg.watermark >= (
            #[trigger] lst[j]).id by {
                if j < lst.len() - 1 {
                    assert(lst[j].id < lst[lst.len() - 1].id);
                }
            }
        }
        assert(reg.watermark == pass_watermark(remote.records@, old(reg).watermark as int));
    }
    Ok(DownloadReport { fetched, applied: i })
}

} // verus!
