use syncer::download::{apply_remote_record, run_download_iteration};
use syncer::locking::{run_lock_schedule, trace_is_exclusive, AccessEvent};
use syncer::records::{FileRecordCreateForm, ResponseFileRecord};
use syncer::registry::LocalRegistry;
use syncer::remote_model::RemoteModel;
use syncer::store::{ChunkEntry, ChunkStore};
use syncer::upload::{push_record, run_upload_iteration, upload_wait_secs, INTERVAL_CHECK_UPLOAD_SEC};
use syncer::protocol::SyncError;

fn chunk(id: &str, data: &[u8]) -> ChunkEntry {
    ChunkEntry {
        id: id.to_string(),
        data: data.to_vec(),
    }
}

fn record(id: i32, path: &str, chunk_ids: &str) -> ResponseFileRecord {
    ResponseFileRecord {
        id,
        path: path.to_string(),
        chunk_ids: chunk_ids.to_string(),
        format: "t".to_string(),
    }
}

fn registry_jid(reg: &LocalRegistry, path: &str) -> Option<i32> {
    for r in reg.records.iter() {
        if r.path == path {
            return r.jid;
        }
    }
    None
}

fn registry_dirty(reg: &LocalRegistry, path: &str) -> bool {
    reg.records.iter().any(|r| r.path == path && r.dirty)
}

// Scenario: remote watermark is past 5 with one new record for /a.txt made
// of h1 and h2, neither chunk held locally; one download iteration fetches
// both chunks, reassembles /a.txt and records remote_id 6.
#[test]
fn download_scenario_applies_new_record() {
    let mut store = ChunkStore::new();
    let mut reg = LocalRegistry::new();
    reg.watermark = 5;
    let remote = RemoteModel {
        chunks: vec![chunk("h1", b"alpha"), chunk("h2", b"beta")],
        records: vec![record(6, "/a.txt", "h1,h2")],
        next_jid: 7,
    };
    let rep = run_download_iteration(&mut store, &mut reg, &remote, 1700000000).unwrap();
    assert_eq!(rep.applied, 1);
    assert!(store.check_chunk(&"h1".to_string()));
    assert!(store.check_chunk(&"h2".to_string()));
    assert_eq!(
        store.hashify(&"/a.txt".to_string()).unwrap(),
        vec!["h1".to_string(), "h2".to_string()]
    );
    assert_eq!(registry_jid(&reg, "/a.txt"), Some(6));
    assert_eq!(reg.latest_watermark(), 6);
}

// Idempotent apply: a second iteration against an unchanged remote lists
// nothing and changes nothing.
#[test]
fn download_twice_is_noop() {
    let mut store = ChunkStore::new();
    let mut reg = LocalRegistry::new();
    let remote = RemoteModel {
        chunks: vec![chunk("h1", b"alpha"), chunk("h2", b"beta")],
        records: vec![record(1, "/a.txt", "h1,h2"), record(2, "/b.txt", "h1")],
        next_jid: 3,
    };
    let first = run_download_iteration(&mut store, &mut reg, &remote, 10).unwrap();
    assert_eq!(first.applied, 2);
    assert_eq!(first.fetched.len(), 2);
    let chunks_after_first = store.chunks.len();
    let watermark_after_first = reg.latest_watermark();

    let ids_after_first: Vec<String> = store.chunks.iter().map(|c| c.id.clone()).collect();
    let data_after_first: Vec<Vec<u8>> = store.chunks.iter().map(|c| c.data.clone()).collect();

    let second = run_download_iteration(&mut store, &mut reg, &remote, 20).unwrap();
    assert_eq!(second.applied, 0);
    assert_eq!(second.fetched.len(), 0);
    assert_eq!(store.chunks.len(), chunks_after_first);
    assert_eq!(reg.latest_watermark(), watermark_after_first);
    let ids_after_second: Vec<String> = store.chunks.iter().map(|c| c.id.clone()).collect();
    let data_after_second: Vec<Vec<u8>> = store.chunks.iter().map(|c| c.data.clone()).collect();
    assert_eq!(ids_after_first, ids_after_second);
    assert_eq!(data_after_first, data_after_second);
    assert_eq!(
        store.hashify(&"/a.txt".to_string()).unwrap(),
        vec!["h1".to_string(), "h2".to_string()]
    );
}

// A record that cannot be pushed stays dirty and is retried; the ones
// that can be pushed are drained in the same pass.
#[test]
fn upload_iteration_keeps_failed_records_dirty() {
    let mut store = ChunkStore::new();
    store.save_chunk(&"h1".to_string(), b"a".to_vec());
    store.save_file(&"/good".to_string(), vec!["h1".to_string()]);
    let mut reg = LocalRegistry::new();
    for path in ["/good", "/ghost"] {
        reg.upsert_record(FileRecordCreateForm {
            jid: None,
            path: path.to_string(),
            size: 0,
            format: "t".to_string(),
            modified_at: 0,
        });
        reg.note_local_change(&path.to_string());
    }
    let mut remote = RemoteModel {
        chunks: vec![],
        records: vec![],
        next_jid: 1,
    };
    let round = run_upload_iteration(&store, &mut reg, &mut remote);
    assert!(!round.wait);
    assert_eq!(round.completed, 1);
    assert_eq!(round.failed, 1);
    assert!(!registry_dirty(&reg, "/good"));
    assert!(registry_dirty(&reg, "/ghost"));
    assert_eq!(registry_jid(&reg, "/good"), Some(1));
}

// Applying the same record twice does not duplicate chunk storage.
#[test]
fn apply_record_twice_no_duplicates() {
    let mut store = ChunkStore::new();
    let mut reg = LocalRegistry::new();
    let remote = RemoteModel {
        chunks: vec![chunk("h1", b"alpha"), chunk("h2", b"beta")],
        records: vec![record(6, "/a.txt", "h1,h2")],
        next_jid: 7,
    };
    let rec = record(6, "/a.txt", "h1,h2");
    let first = apply_remote_record(&mut store, &mut reg, &remote, &rec, 0).unwrap();
    assert_eq!(first.len(), 2);
    assert_eq!(store.chunks.len(), 2);
    let second = apply_remote_record(&mut store, &mut reg, &remote, &rec, 0).unwrap();
    assert!(second.is_empty());
    assert_eq!(store.chunks.len(), 2);
    assert_eq!(store.files.len(), 1);
}

// Dedup: a chunk already in the store is never downloaded again, and a
// repeated id in one record is downloaded at most once.
#[test]
fn existing_chunks_are_not_redownloaded() {
    let mut store = ChunkStore::new();
    store.save_chunk(&"h1".to_string(), b"alpha".to_vec());
    let mut reg = LocalRegistry::new();
    let remote = RemoteModel {
        chunks: vec![chunk("h1", b"alpha"), chunk("h2", b"beta")],
        records: vec![record(1, "/a.txt", "h1,h2,h1")],
        next_jid: 2,
    };
    let rec = record(1, "/a.txt", "h1,h2,h1");
    let downloaded = apply_remote_record(&mut store, &mut reg, &remote, &rec, 0).unwrap();
    assert_eq!(downloaded, vec!["h2".to_string()]);
    // The dedup bound: download calls never exceed the ids not present.
    assert!(downloaded.len() <= 1);
}

#[test]
fn missing_chunks_plans_only_absent_ids() {
    let mut store = ChunkStore::new();
    store.save_chunk(&"c1".to_string(), b"1".to_vec());
    let ids = vec![
        "c1".to_string(),
        "c2".to_string(),
        "c2".to_string(),
        "c3".to_string(),
    ];
    let missing = store.missing_chunks(&ids);
    assert_eq!(missing, vec!["c2".to_string(), "c3".to_string()]);
}

// Negotiation correctness: with the remote missing exactly c2 and c4 out
// of c1..c4, exactly those two are uploaded, never c1 or c3.
#[test]
fn negotiation_uploads_exactly_missing_chunks() {
    let mut store = ChunkStore::new();
    store.save_chunk(&"c1".to_string(), b"one".to_vec());
    store.save_chunk(&"c2".to_string(), b"two".to_vec());
    store.save_chunk(&"c3".to_string(), b"three".to_vec());
    store.save_chunk(&"c4".to_string(), b"four".to_vec());
    store.save_file(
        &"/f.txt".to_string(),
        vec![
            "c1".to_string(),
            "c2".to_string(),
            "c3".to_string(),
            "c4".to_string(),
        ],
    );
    let mut reg = LocalRegistry::new();
    reg.upsert_record(FileRecordCreateForm {
        jid: None,
        path: "/f.txt".to_string(),
        size: 12,
        format: "t".to_string(),
        modified_at: 0,
    });
    reg.note_local_change(&"/f.txt".to_string());
    let mut remote = RemoteModel {
        chunks: vec![chunk("c1", b"one"), chunk("c3", b"three")],
        records: vec![],
        next_jid: 1,
    };
    let rep = push_record(&store, &mut reg, &mut remote, &"/f.txt".to_string()).unwrap();
    assert_eq!(rep.uploaded, vec!["c2".to_string(), "c4".to_string()]);
    assert_eq!(rep.committed_jid, 1);
    assert_eq!(remote.chunks.len(), 4);
    assert_eq!(registry_jid(&reg, "/f.txt"), Some(1));
    assert!(!registry_dirty(&reg, "/f.txt"));
}

// Scenario: /b.txt was modified locally and decomposes to ["h3"]; the
// first commit answers NeedChunks("h3"); after uploading h3 the re-issued
// commit answers Success(7) and the local record is updated.
#[test]
fn upload_scenario_need_chunks_then_success() {
    let mut store = ChunkStore::new();
    store.save_chunk(&"h3".to_string(), b"gamma".to_vec());
    store.save_file(&"/b.txt".to_string(), vec!["h3".to_string()]);
    let mut reg = LocalRegistry::new();
    reg.upsert_record(FileRecordCreateForm {
        jid: Some(2),
        path: "/b.txt".to_string(),
        size: 5,
        format: "t".to_string(),
        modified_at: 0,
    });
    reg.note_local_change(&"/b.txt".to_string());
    let mut remote = RemoteModel {
        chunks: vec![],
        records: vec![],
        next_jid: 7,
    };
    let rep = push_record(&store, &mut reg, &mut remote, &"/b.txt".to_string()).unwrap();
    assert_eq!(rep.uploaded, vec!["h3".to_string()]);
    assert_eq!(rep.committed_jid, 7);
    assert_eq!(registry_jid(&reg, "/b.txt"), Some(7));
    assert!(!registry_dirty(&reg, "/b.txt"));
    assert_eq!(remote.next_jid, 8);
    assert_eq!(remote.records.len(), 1);
    assert_eq!(remote.records[0].path, "/b.txt");
    assert_eq!(remote.records[0].chunk_ids, "h3");
}

// An upload whose chunks the remote already holds commits in one round
// trip with nothing uploaded.
#[test]
fn upload_with_all_chunks_known_commits_directly() {
    let mut store = ChunkStore::new();
    store.save_chunk(&"h9".to_string(), b"nine".to_vec());
    store.save_file(&"/c.txt".to_string(), vec!["h9".to_string()]);
    let mut reg = LocalRegistry::new();
    reg.upsert_record(FileRecordCreateForm {
        jid: None,
        path: "/c.txt".to_string(),
        size: 4,
        format: "t".to_string(),
        modified_at: 0,
    });
    reg.note_local_change(&"/c.txt".to_string());
    let mut remote = RemoteModel {
        chunks: vec![chunk("h9", b"nine")],
        records: vec![],
        next_jid: 1,
    };
    let rep = push_record(&store, &mut reg, &mut remote, &"/c.txt".to_string()).unwrap();
    assert!(rep.uploaded.is_empty());
    assert_eq!(rep.committed_jid, 1);
}

// Watermark monotonicity over several iterations: never decreasing, and
// equal to the highest applied jid after each pass.
#[test]
fn watermark_is_monotonic_across_iterations() {
    let mut store = ChunkStore::new();
    let mut reg = LocalRegistry::new();
    let mut remote = RemoteModel {
        chunks: vec![chunk("h1", b"a"), chunk("h2", b"b"), chunk("h3", b"c")],
        records: vec![record(1, "/a".to_string().as_str(), "h1"), record(3, "/b", "h2")],
        next_jid: 4,
    };
    run_download_iteration(&mut store, &mut reg, &remote, 0).unwrap();
    assert_eq!(reg.latest_watermark(), 3);

    remote.records.push(record(5, "/c", "h3"));
    remote.next_jid = 6;
    let w_before = reg.latest_watermark();
    run_download_iteration(&mut store, &mut reg, &remote, 0).unwrap();
    assert!(reg.latest_watermark() >= w_before);
    assert_eq!(reg.latest_watermark(), 5);

    run_download_iteration(&mut store, &mut reg, &remote, 0).unwrap();
    assert_eq!(reg.latest_watermark(), 5);
}

// Self-accelerating upload: a non-empty backlog reports no wait, an empty
// backlog waits the full interval.
#[test]
fn upload_schedule_accelerates_on_backlog() {
    assert_eq!(upload_wait_secs(0), INTERVAL_CHECK_UPLOAD_SEC);
    assert_eq!(upload_wait_secs(0), 47);
    assert_eq!(upload_wait_secs(3), 0);

    let mut store = ChunkStore::new();
    store.save_chunk(&"h1".to_string(), b"a".to_vec());
    store.save_file(&"/a".to_string(), vec!["h1".to_string()]);
    let mut reg = LocalRegistry::new();
    reg.upsert_record(FileRecordCreateForm {
        jid: None,
        path: "/a".to_string(),
        size: 1,
        format: "t".to_string(),
        modified_at: 0,
    });
    let mut remote = RemoteModel {
        chunks: vec![],
        records: vec![],
        next_jid: 1,
    };

    // Empty backlog: wait the full interval.
    let idle = run_upload_iteration(&store, &mut reg, &mut remote);
    assert!(idle.wait);
    assert_eq!(idle.completed + idle.failed, 0);

    // One modified record: run at once, and drain it.
    reg.note_local_change(&"/a".to_string());
    let busy = run_upload_iteration(&store, &mut reg, &mut remote);
    assert!(!busy.wait);
    assert_eq!(busy.completed, 1);
    assert_eq!(busy.failed, 0);
    assert!(!registry_dirty(&reg, "/a"));
}

// Lock exclusivity under forced schedules: whatever the interleaving, the
// produced store-access trace never tears a read or write.
#[test]
fn lock_traces_are_exclusive_under_race() {
    let schedules: Vec<Vec<bool>> = vec![
        vec![],
        vec![false, false, true, true],
        vec![false, true, false, true, false, true],
        vec![true, true, true, false, false, false],
        vec![false, true, true, false, true, false, false, true],
        vec![true, false, true, false, true, false, true, false],
    ];
    for schedule in schedules {
        let trace = run_lock_schedule(&schedule);
        assert!(trace_is_exclusive(&trace));
        assert!(trace.len() <= schedule.len());
    }
}

// A task scheduled while the other holds the lock stalls instead of
// touching the store.
#[test]
fn lock_blocks_competing_task() {
    let trace = run_lock_schedule(&vec![false, true, false, true]);
    assert_eq!(
        trace,
        vec![
            AccessEvent { by_upload: false, begin: true },
            AccessEvent { by_upload: false, begin: false },
            AccessEvent { by_upload: true, begin: true },
        ]
    );
    assert!(trace_is_exclusive(&trace));
    let torn = vec![
        AccessEvent { by_upload: false, begin: true },
        AccessEvent { by_upload: true, begin: false },
    ];
    assert!(!trace_is_exclusive(&torn));
}

// A chunk id the remote does not hold surfaces as ChunkNotFound and the
// file table and registry stay untouched.
#[test]
fn download_of_unknown_chunk_fails() {
    let mut store = ChunkStore::new();
    let mut reg = LocalRegistry::new();
    let remote = RemoteModel {
        chunks: vec![],
        records: vec![record(1, "/a.txt", "missing")],
        next_jid: 2,
    };
    let rec = record(1, "/a.txt", "missing");
    match apply_remote_record(&mut store, &mut reg, &remote, &rec, 0) {
        Err(SyncError::ChunkNotFound) => {}
        _ => panic!("expected the missing chunk to surface"),
    }
    assert!(store.files.is_empty());
    assert_eq!(reg.latest_watermark(), 0);
    assert!(registry_jid(&reg, "/a.txt").is_none());
}

// Pushing a path the store has no file for fails with LocalIoError and
// changes nothing.
#[test]
fn upload_of_unknown_path_fails() {
    let store = ChunkStore::new();
    let mut reg = LocalRegistry::new();
    reg.upsert_record(FileRecordCreateForm {
        jid: None,
        path: "/ghost".to_string(),
        size: 0,
        format: "t".to_string(),
        modified_at: 0,
    });
    let mut remote = RemoteModel {
        chunks: vec![],
        records: vec![],
        next_jid: 1,
    };
    match push_record(&store, &mut reg, &mut remote, &"/ghost".to_string()) {
        Err(SyncError::LocalIoError) => {}
        _ => panic!("expected a local failure"),
    }
    assert_eq!(remote.next_jid, 1);
    assert!(remote.chunks.is_empty());
}

// Remote upload is idempotent: re-sending a known chunk id is a no-op.
#[test]
fn remote_upload_is_idempotent() {
    let mut remote = RemoteModel {
        chunks: vec![],
        records: vec![],
        next_jid: 1,
    };
    remote.upload(&"h1".to_string(), b"alpha".to_vec());
    remote.upload(&"h1".to_string(), b"alpha".to_vec());
    assert_eq!(remote.chunks.len(), 1);
    assert_eq!(remote.chunks[0].data, b"alpha".to_vec());
}

// The listing returns exactly the records past the watermark, in order.
#[test]
fn remote_list_filters_by_watermark() {
    let remote = RemoteModel {
        chunks: vec![],
        records: vec![record(1, "/a", "h1"), record(4, "/b", "h2"), record(6, "/c", "h3")],
        next_jid: 7,
    };
    let all = remote.list(0);
    assert_eq!(all.len(), 3);
    let some = remote.list(3);
    assert_eq!(some.len(), 2);
    assert_eq!(some[0].id, 4);
    assert_eq!(some[1].id, 6);
    let none = remote.list(6);
    assert!(none.is_empty());
}

// The registry's modified queue holds exactly the dirty records, and a
// successful commit clears the mark and lifts the watermark.
#[test]
fn registry_tracks_modified_records() {
    let mut reg = LocalRegistry::new();
    for (path, jid) in [("/a", Some(1)), ("/b", None), ("/c", Some(2))] {
        reg.upsert_record(FileRecordCreateForm {
            jid,
            path: path.to_string(),
            size: 0,
            format: "t".to_string(),
            modified_at: 0,
        });
    }
    assert!(reg.locally_modified_records().is_empty());
    reg.note_local_change(&"/b".to_string());
    reg.note_local_change(&"/c".to_string());
    let modified = reg.locally_modified_records();
    assert_eq!(modified.len(), 2);
    assert_eq!(modified[0].path, "/b");
    assert_eq!(modified[1].path, "/c");

    reg.update_remote_id(&"/b".to_string(), 9);
    assert_eq!(registry_jid(&reg, "/b"), Some(9));
    assert!(!registry_dirty(&reg, "/b"));
    assert_eq!(reg.latest_watermark(), 9);
    assert_eq!(reg.locally_modified_records().len(), 1);
}

// The store reads back what was saved and fails on unknown ids.
#[test]
fn store_round_trips_chunks() {
    let mut store = ChunkStore::new();
    assert!(!store.check_chunk(&"h1".to_string()));
    store.save_chunk(&"h1".to_string(), b"alpha".to_vec());
    assert!(store.check_chunk(&"h1".to_string()));
    assert_eq!(store.read_chunk(&"h1".to_string()).unwrap(), b"alpha".to_vec());
    match store.read_chunk(&"h2".to_string()) {
        Err(SyncError::LocalIoError) => {}
        _ => panic!("expected a miss"),
    }
    match store.hashify(&"/nope".to_string()) {
        Err(SyncError::LocalIoError) => {}
        _ => panic!("expected a miss"),
    }
}

// The registry record written by a download carries the reassembled byte
// length of the file.
#[test]
fn applied_record_carries_reassembled_size() {
    let mut store = ChunkStore::new();
    let mut reg = LocalRegistry::new();
    let remote = RemoteModel {
        chunks: vec![chunk("h1", b"alpha"), chunk("h2", b"woof")],
        records: vec![record(1, "/a.txt", "h1,h2")],
        next_jid: 2,
    };
    let rec = record(1, "/a.txt", "h1,h2");
    apply_remote_record(&mut store, &mut reg, &remote, &rec, 42).unwrap();
    let stored = reg
        .records
        .iter()
        .find(|r| r.path == "/a.txt")
        .expect("record written");
    assert_eq!(stored.size, 9);
    assert_eq!(stored.modified_at, 42);
    assert_eq!(stored.format, "t");
}
