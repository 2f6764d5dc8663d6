//! In-memory content-addressed chunk store: the shared resource both sync
//! loops contend for. Chunks are blobs keyed by a stable id string; a file
//! is an ordered sequence of chunk ids that reassembles its content.

use vstd::prelude::*;
use crate::protocol::SyncError;
use crate::protocol::comma_free;

verus! {

/// One stored chunk: its content-address id and its bytes.
pub struct ChunkEntry {
    pub id: String,
    pub data: Vec<u8>,
}

/// One reassembled file: its path and the ordered chunk ids of its content.
pub struct FileEntry {
    pub path: String,
    pub ids: Vec<String>,
}

/// Whether the entry list holds a chunk with id `k`.
pub open spec fn chunk_has(s: Seq<ChunkEntry>, k: Seq<char>) -> bool {
    exists|j: int| 0 <= j < s.len() && s[j].id@ == k
}

/// The bytes stored under id `k`; meaningful only when `chunk_has` holds
/// and ids are unique.
pub open spec fn chunk_at(s: Seq<ChunkEntry>, k: Seq<char>) -> Seq<u8> {
    s[choose|j: int| 0 <= j < s.len() && s[j].id@ == k].data@
}

pub open spec fn chunk_keys_unique(s: Seq<ChunkEntry>) -> bool {
    forall|i: int, j: int| 0 <= i < j < s.len() ==> s[i].id@ != s[j].id@
}

/// Whether the file list holds an entry for `p`.
pub open spec fn file_has(s: Seq<FileEntry>, p: Seq<char>) -> bool {
    exists|j: int| 0 <= j < s.len() && s[j].path@ == p
}

/// The chunk-id sequence recorded for path `p`.
pub open spec fn file_at(s: Seq<FileEntry>, p: Seq<char>) -> Seq<Seq<char>> {
    s[choose|j: int| 0 <= j < s.len() && s[j].path@ == p].ids.deep_view()
}

pub open spec fn file_paths_unique(s: Seq<FileEntry>) -> bool {
    forall|i: int, j: int| 0 <= i < j < s.len() ==> s[i].path@ != s[j].path@
}

/// Appending an entry under a fresh id keeps ids unique, stores exactly
/// the new bytes under it, and leaves every other id untouched.
pub proof fn lemma_chunk_push(s: Seq<ChunkEntry>, e: ChunkEntry)
    requires
        chunk_keys_unique(s),
        !chunk_has(s, e.id@),
    ensures
        chunk_keys_unique(s.push(e)),
        chunk_has(s.push(e), e.id@),
        chunk_at(s.push(e), e.id@) == e.data@,
        forall|k: Seq<char>| k != e.id@ ==> chunk_has(s.push(e), k) == chunk_has(s, k),
        forall|k: Seq<char>|
            k != e.id@ && chunk_has(s, k) ==> chunk_at(s.push(e), k) == chunk_at(s, k),
{
    let t = s.push(e);
    assert(t[s.len() as int].id@ == e.id@);
    assert forall|i: int, j: int| 0 <= i < j < t.len() implies t[i].id@ != t[j].id@ by {
        if j < s.len() {
        } else {
            assert(t[j] == e);
            assert(t[i] == s[i]);
            assert(!chunk_has(s, e.id@));
        }
    }
    let w = choose|j: int| 0 <= j < t.len() && t[j].id@ == e.id@;
    if w < s.len() {
        assert(chunk_has(s, e.id@));
    }
    assert forall|k: Seq<char>| k != e.id@ implies chunk_has(t, k) == chunk_has(s, k) by {
        if chunk_has(t, k) {
            let j = choose|j: int| 0 <= j < t.len() && t[j].id@ == k;
            assert(j < s.len());
            assert(chunk_has(s, k));
        }
        if chunk_has(s, k) {
            let j = choose|j: int| 0 <= j < s.len() && s[j].id@ == k;
            assert(t[j].id@ == k);
        }
    }
    assert forall|k: Seq<char>| k != e.id@ && chunk_has(s, k) implies chunk_at(t, k) == chunk_at(
        s,
        k,
    ) by {
        let j = choose|j: int| 0 <= j < t.len() && t[j].id@ == k;
        let j2 = choose|j2: int| 0 <= j2 < s.len() && s[j2].id@ == k;
        assert(t[j2].id@ == k);
        assert(j < s.len());
        if j != j2 {
            assert(s[j].id@ == s[j2].id@);
        }
    }
}

/// Replacing the entry at a path's index rebinds exactly that path and
/// leaves every other path untouched.
proof fn lemma_file_set(s: Seq<FileEntry>, i: int, e: FileEntry)
    requires
        file_paths_unique(s),
        0 <= i < s.len(),
        s[i].path@ == e.path@,
    ensures
        file_paths_unique(s.update(i, e)),
        file_has(s.update(i, e), e.path@),
        file_at(s.update(i, e), e.path@) == e.ids.deep_view(),
        forall|p: Seq<char>| p != e.path@ ==> file_has(s.update(i, e), p) == file_has(s, p),
        forall|p: Seq<char>|
            p != e.path@ && file_has(s, p) ==> file_at(s.update(i, e), p) == file_at(s, p),
{
    let t = s.update(i, e);
    assert(t[i].path@ == e.path@);
    let w = choose|j: int| 0 <= j < t.len() && t[j].path@ == e.path@;
    if w != i {
        assert(s[w].path@ == s[i].path@);
    }
    assert forall|p: Seq<char>| p != e.path@ implies file_has(t, p) == file_has(s, p) by {
        if file_has(t, p) {
            let j = choose|j: int| 0 <= j < t.len() && t[j].path@ == p;
            assert(j != i);
            assert(s[j].path@ == p);
        }
        if file_has(s, p) {
            let j = choose|j: int| 0 <= j < s.len() && s[j].path@ == p;
            assert(j != i);
            assert(t[j].path@ == p);
        }
    }
    assert forall|p: Seq<char>| p != e.path@ && file_has(s, p) implies file_at(t, p) == file_at(
        s,
        p,
    ) by {
        let j = choose|j: int| 0 <= j < t.len() && t[j].path@ == p;
        let j2 = choose|j2: int| 0 <= j2 < s.len() && s[j2].path@ == p;
        assert(j != i && j2 != i);
        assert(t[j].path@ == p && s[j2].path@ == p);
        if j != j2 {
            assert(s[j].path@ == s[j2].path@);
        }
    }
}

/// Appending an entry for a fresh path binds exactly that path and leaves
/// every other path untouched.
proof fn lemma_file_push(s: Seq<FileEntry>, e: FileEntry)
    requires
        file_paths_unique(s),
        !file_has(s, e.path@),
    ensures
        file_paths_unique(s.push(e)),
        file_has(s.push(e), e.path@),
        file_at(s.push(e), e.path@) == e.ids.deep_view(),
        forall|p: Seq<char>| p != e.path@ ==> file_has(s.push(e), p) == file_has(s, p),
        forall|p: Seq<char>|
            p != e.path@ && file_has(s, p) ==> file_at(s.push(e), p) == file_at(s, p),
{
    let t = s.push(e);
    assert(t[s.len() as int].path@ == e.path@);
    assert forall|i: int, j: int| 0 <= i < j < t.len() implies t[i].path@ != t[j].path@ by {
        if j < s.len() {
        } else {
            assert(t[j] == e);
            assert(t[i] == s[i]);
        }
    }
    let w = choose|j: int| 0 <= j < t.len() && t[j].path@ == e.path@;
    if w < s.len() {
        assert(file_has(s, e.path@));
    }
    assert forall|p: Seq<char>| p != e.path@ implies file_has(t, p) == file_has(s, p) by {
        if file_has(t, p) {
            let j = choose|j: int| 0 <= j < t.len() && t[j].path@ == p;
            assert(j < s.len());
            assert(s[j].path@ == p);
        }
        if file_has(s, p) {
            let j = choose|j: int| 0 <= j < s.len() && s[j].path@ == p;
            assert(t[j].path@ == p);
        }
    }
    assert forall|p: Seq<char>| p != e.path@ && file_has(s, p) implies file_at(t, p) == file_at(
        s,
        p,
    ) by {
        let j = choose|j: int| 0 <= j < t.len() && t[j].path@ == p;
        let j2 = choose|j2: int| 0 <= j2 < s.len() && s[j2].path@ == p;
        assert(t[j].path@ == p && s[j2].path@ == p);
        assert(j < s.len());
        if j != j2 {
            assert(s[j].path@ == s[j2].path@);
        }
    }
}

/// Chunk ids are content hashes: never empty of meaning, and free of the
/// comma the wire format joins them with.
pub open spec fn chunk_ids_wf(s: Seq<ChunkEntry>) -> bool {
    forall|j: int| 0 <= j < s.len() ==> comma_free((#[trigger] s[j]).id@)
}

/// A reassembled file references at least one chunk, every reference is
/// comma-free, and every referenced chunk is present in the store.
pub open spec fn file_entry_wf(f: FileEntry, chunks: Seq<ChunkEntry>) -> bool {
    f.ids.deep_view().len() >= 1 && forall|k: int|
        0 <= k < f.ids.deep_view().len() ==> comma_free(#[trigger] f.ids.deep_view()[k])
            && chunk_has(chunks, f.ids.deep_view()[k])
}

pub open spec fn files_wf(files: Seq<FileEntry>, chunks: Seq<ChunkEntry>) -> bool {
    forall|j: int| 0 <= j < files.len() ==> file_entry_wf(#[trigger] files[j], chunks)
}

/// Finds the index of an id in a chunk-entry list.
pub fn find_chunk_in(chunks: &Vec<ChunkEntry>, id: &String) -> (r: Option<usize>)
    ensures
        match r {
            Some(i) => i < chunks.len() && chunks@[i as int].id@ == id@,
            None => !chunk_has(chunks@, id@),
        },
{
    let mut j: usize = 0;
    while j < chunks.len()
        invariant
            0 <= j <= chunks.len(),
            forall|jj: int| 0 <= jj < j ==> chunks@[jj].id@ != id@,
        decreases chunks.len() - j,
    {
        if chunks[j].id == *id {
            return Some(j);
        }
        j = j + 1;
    }
    None
}

/// Whether an id list already holds this id.
pub fn contains_string(v: &Vec<String>, x: &String) -> (r: bool)
    ensures
        r == v.deep_view().contains(x@),
{
    let mut j: usize = 0;
    while j < v.len()
        invariant
            0 <= j <= v.len(),
            forall|jj: int| 0 <= jj < j ==> v.deep_view()[jj] != x@,
        decreases v.len() - j,
    {
        if v[j] == *x {
            proof {
                assert(v.deep_view()[j as int] == x@);
            }
            return true;
        }
        j = j + 1;
    }
    proof {
        assert(forall|jj: int| 0 <= jj < v.deep_view().len() ==> v.deep_view()[jj] != x@);
    }
    false
}

/// The distinct ids of the list that the chunk-entry set does not hold,
/// in first-occurrence order: the chunks a transfer is still missing.
pub fn absent_ids(chunks: &Vec<ChunkEntry>, ids: &Vec<String>) -> (r: Vec<String>)
    requires
        forall|i: int| 0 <= i < ids.deep_view().len() ==> comma_free(#[trigger] ids.deep_view()[i]),
    ensures
        r.deep_view().no_duplicates(),
        forall|k: Seq<char>|
            #[trigger] r.deep_view().contains(k) <==> ids.deep_view().contains(k) && !chunk_has(
                chunks@,
                k,
            ),
        forall|i: int| 0 <= i < r.deep_view().len() ==> comma_free(#[trigger] r.deep_view()[i]),
{
    let mut r: Vec<String> = Vec::new();
    let mut i: usize = 0;
    proof {
        assert(ids.deep_view().subrange(0, 0) =~= Seq::<Seq<char>>::empty());
    }
    while i < ids.len()
        invariant
            0 <= i <= ids.len(),
            forall|ii: int|
                0 <= ii < ids.deep_view().len() ==> comma_free(#[trigger] ids.deep_view()[ii]),
            r.deep_view().no_duplicates(),
            forall|k: Seq<char>|
                #[trigger] r.deep_view().contains(k) <==> ids.deep_view().subrange(
                    0,
                    i as int,
                ).contains(k) && !chunk_has(chunks@, k),
            forall|ii: int|
                0 <= ii < r.deep_view().len() ==> comma_free(#[trigger] r.deep_view()[ii]),
        decreases ids.len() - i,
    {
        let id = &ids[i];
        let missing = find_chunk_in(chunks, id).is_none();
        let fresh = !contains_string(&r, id);
        proof {
            let dv = ids.deep_view();
            assert(dv[i as int] == ids@[i as int]@);
            assert(dv.subrange(0, i + 1) =~= dv.subrange(0, i as int).push(dv[i as int]));
        }
        if missing && fresh {
            let ghost old_r = r.deep_view();
            r.push(id.clone());
            proof {
                assert(r.deep_view() =~= old_r.push(ids.deep_view()[i as int]));
                assert forall|k: Seq<char>| #[trigger] r.deep_view().contains(k) implies
                    ids.deep_view().subrange(0, i + 1).contains(k) && !chunk_has(chunks@, k) by {
                    let j = choose|j: int| 0 <= j < r.deep_view().len() && r.deep_view()[j] == k;
                    if j < old_r.len() {
                        assert(old_r.contains(k));
                    } else {
                        assert(k == ids.deep_view()[i as int]);
                        assert(ids.deep_view().subrange(0, i + 1).last() == k);
                    }
                }
                assert forall|k: Seq<char>|
                    ids.deep_view().subrange(0, i + 1).contains(k) && !chunk_has(chunks@, k)
                        implies #[trigger] r.deep_view().contains(k) by {
                    let sub = ids.deep_view().subrange(0, i + 1);
                    let j = choose|j: int| 0 <= j < sub.len() && sub[j] == k;
                    if j < i {
                        assert(ids.deep_view().subrange(0, i as int).contains(k));
                        assert(old_r.contains(k));
                        let jj = choose|jj: int| 0 <= jj < old_r.len() && old_r[jj] == k;
                        assert(r.deep_view()[jj] == k);
                    } else {
                        assert(k == ids.deep_view()[i as int]);
                        assert(r.deep_view().last() == k);
                    }
                }
            }
        } else {
            proof {
                let dv = ids.deep_view();
                assert forall|k: Seq<char>| #[trigger] r.deep_view().contains(k) implies
                    dv.subrange(0, i + 1).contains(k) && !chunk_has(chunks@, k) by {
                    assert(dv.subrange(0, i as int).contains(k));
                    let j = choose|j: int|
                        0 <= j < i && dv.subrange(0, i as int)[j] == k;
                    assert(dv.subrange(0, i + 1)[j] == k);
                }
                assert forall|k: Seq<char>|
                    dv.subrange(0, i + 1).contains(k) && !chunk_has(chunks@, k) implies #[trigger]
                    r.deep_view().contains(k) by {
                    let sub = dv.subrange(0, i + 1);
                    let j = choose|j: int| 0 <= j < sub.len() && sub[j] == k;
                    if j < i {
                        assert(dv.subrange(0, i as int).contains(k));
                    } else {
                        assert(k == dv[i as int]);
                        if !missing {
                            assert(chunk_has(chunks@, k));
                        } else {
                            assert(r.deep_view().contains(ids@[i as int]@));
                        }
                    }
                }
            }
        }
        i = i + 1;
    }
    proof {
        assert(ids.deep_view().subrange(0, ids.deep_view().len() as int) =~= ids.deep_view());
    }
    r
}

/// The content-addressed blob store plus the reassembled files written
/// from it. Ids and paths are unique keys.
pub struct ChunkStore {
    pub chunks: Vec<ChunkEntry>,
    pub files: Vec<FileEntry>,
}

impl ChunkStore {
    pub open spec fn wf(&self) -> bool {
        chunk_keys_unique(self.chunks@) && file_paths_unique(self.files@) && chunk_ids_wf(
            self.chunks@,
        ) && files_wf(self.files@, self.chunks@)
    }

    pub open spec fn has_chunk_spec(&self, k: Seq<char>) -> bool {
        chunk_has(self.chunks@, k)
    }

    pub open spec fn chunk_data_spec(&self, k: Seq<char>) -> Seq<u8> {
        chunk_at(self.chunks@, k)
    }

    pub open spec fn has_file_spec(&self, p: Seq<char>) -> bool {
        file_has(self.files@, p)
    }

    pub open spec fn file_ids_spec(&self, p: Seq<char>) -> Seq<Seq<char>> {
        file_at(self.files@, p)
    }

    pub fn new() -> (r: ChunkStore)
        ensures
            r.wf(),
            forall|k: Seq<char>| !r.has_chunk_spec(k),
            forall|p: Seq<char>| !r.has_file_spec(p),
    {
        ChunkStore { chunks: Vec::new(), files: Vec::new() }
    }

    fn find_chunk(&self, id: &String) -> (r: Option<usize>)
        ensures
            match r {
                Some(i) => i < self.chunks.len() && self.chunks@[i as int].id@ == id@,
                None => !self.has_chunk_spec(id@),
            },
    {
        find_chunk_in(&self.chunks, id)
    }

    /// The chunks a record references that this store does not hold yet:
    /// exactly what the download loop must fetch, each id once.
    pub fn missing_chunks(&self, ids: &Vec<String>) -> (r: Vec<String>)
        requires
            forall|i: int|
                0 <= i < ids.deep_view().len() ==> comma_free(#[trigger] ids.deep_view()[i]),
        ensures
            r.deep_view().no_duplicates(),
            forall|k: Seq<char>|
                #[trigger] r.deep_view().contains(k) <==> ids.deep_view().contains(k)
                    && !self.has_chunk_spec(k),
            forall|i: int| 0 <= i < r.deep_view().len() ==> comma_free(#[trigger] r.deep_view()[i]),
    {
        absent_ids(&self.chunks, ids)
    }

    /// The existence check the download loop performs before fetching.
    pub fn check_chunk(&self, id: &String) -> (r: bool)
        ensures
            r == self.has_chunk_spec(id@),
    {
        self.find_chunk(id).is_some()
    }

    /// Stores bytes under a content-address. The store being
    /// content-addressed, an id already present keeps its bytes: the same
    /// id names the same content.
    pub fn save_chunk(&mut self, id: &String, data: Vec<u8>)
        requires
            old(self).wf(),
            comma_free(id@),
        ensures
            final(self).wf(),
            final(self).has_chunk_spec(id@),
            final(self).chunk_data_spec(id@) == if old(self).has_chunk_spec(id@) {
                old(self).chunk_data_spec(id@)
            } else {
                data@
            },
            forall|k: Seq<char>|
                k != id@ ==> final(self).has_chunk_spec(k) == old(self).has_chunk_spec(k),
            forall|k: Seq<char>|
                k != id@ && old(self).has_chunk_spec(k) ==> final(self).chunk_data_spec(k) == old(
                    self,
                ).chunk_data_spec(k),
            final(self).files == old(self).files,
    {
        match self.find_chunk(id) {
            Some(_) => {},
            None => {
                let entry = ChunkEntry { id: id.clone(), data };
                proof {
                    lemma_chunk_push(self.chunks@, entry);
                }
                self.chunks.push(entry);
                proof {
                    assert forall|j: int| 0 <= j < self.files@.len() implies file_entry_wf(
                        #[trigger] self.files@[j],
                        self.chunks@,
                    ) by {
                        let f = self.files@[j];
                        assert(file_entry_wf(f, old(self).chunks@));
                        assert forall|k: int| 0 <= k < f.ids.deep_view().len() implies comma_free(
                            #[trigger] f.ids.deep_view()[k],
                        ) && chunk_has(self.chunks@, f.ids.deep_view()[k]) by {
                            let key = f.ids.deep_view()[k];
                            assert(chunk_has(old(self).chunks@, key));
                            if key != id@ {
                            }
                        }
                    }
                }
            },
        }
    }

    /// Reads the bytes stored under an id; fails exactly when the id is
    /// absent.
    pub fn read_chunk(&self, id: &String) -> (r: Result<Vec<u8>, SyncError>)
        requires
            self.wf(),
        ensures
            match r {
                Ok(d) => self.has_chunk_spec(id@) && d@ == self.chunk_data_spec(id@),
                Err(e) => e == SyncError::LocalIoError && !self.has_chunk_spec(id@),
            },
    {
        match self.find_chunk(id) {
            Some(i) => {
                let d = self.chunks[i].data.clone();
                proof {
                    let j = choose|j: int|
                        0 <= j < self.chunks@.len() && self.chunks@[j].id@ == id@;
                    if j != i {
                        assert(self.chunks@[j].id@ == self.chunks@[i as int].id@);
                        assert(!chunk_keys_unique(self.chunks@));
                    }
                    assert(d@ =~= self.chunks@[i as int].data@);
                }
                Ok(d)
            },
            None => Err(SyncError::LocalIoError),
        }
    }

    fn find_file(&self, path: &String) -> (r: Option<usize>)
        ensures
            match r {
                Some(i) => i < self.files.len() && self.files@[i as int].path@ == path@,
                None => !self.has_file_spec(path@),
            },
    {
        let mut j: usize = 0;
        while j < self.files.len()
            invariant
                0 <= j <= self.files.len(),
                forall|jj: int| 0 <= jj < j ==> self.files@[jj].path@ != path@,
            decreases self.files.len() - j,
        {
            if self.files[j].path == *path {
                return Some(j);
            }
            j = j + 1;
        }
        None
    }

    /// Reassembles a file at a path from chunks the store already holds;
    /// every referenced chunk must be present.
    pub fn save_file(&mut self, path: &String, ids: Vec<String>)
        requires
            old(self).wf(),
            ids.deep_view().len() >= 1,
            forall|i: int|
                0 <= i < ids.deep_view().len() ==> comma_free(#[trigger] ids.deep_view()[i])
                    && old(self).has_chunk_spec(ids.deep_view()[i]),
        ensures
            final(self).wf(),
            final(self).has_file_spec(path@),
            final(self).file_ids_spec(path@) == ids.deep_view(),
            forall|p: Seq<char>|
                p != path@ ==> final(self).has_file_spec(p) == old(self).has_file_spec(p),
            forall|p: Seq<char>|
                p != path@ && old(self).has_file_spec(p) ==> final(self).file_ids_spec(p) == old(
                    self,
                ).file_ids_spec(p),
            final(self).chunks == old(self).chunks,
    {
        let entry = FileEntry { path: path.clone(), ids };
        proof {
            assert(file_entry_wf(entry, self.chunks@));
        }
        match self.find_file(path) {
            Some(i) => {
                proof {
                    lemma_file_set(self.files@, i as int, entry);
                }
                self.files.remove(i);
                self.files.insert(i, entry);
                proof {
                    assert(self.files@ =~= old(self).files@.update(i as int, entry));
                    assert forall|j: int| 0 <= j < self.files@.len() implies file_entry_wf(
                        #[trigger] self.files@[j],
                        self.chunks@,
                    ) by {
                        if j != i {
                            assert(self.files@[j] == old(self).files@[j]);
                            assert(file_entry_wf(old(self).files@[j], old(self).chunks@));
                        }
                    }
                }
            },
            None => {
                proof {
                    lemma_file_push(self.files@, entry);
                }
                self.files.push(entry);
                proof {
                    assert forall|j: int| 0 <= j < self.files@.len() implies file_entry_wf(
                        #[trigger] self.files@[j],
                        self.chunks@,
                    ) by {
                        if j < old(self).files@.len() {
                            assert(self.files@[j] == old(self).files@[j]);
                            assert(file_entry_wf(old(self).files@[j], old(self).chunks@));
                        }
                    }
                }
            },
        }
    }

    /// Decomposes the file at a path into its ordered chunk-id sequence;
    /// fails exactly when the store knows no file there.
    pub fn hashify(&self, path: &String) -> (r: Result<Vec<String>, SyncError>)
        requires
            self.wf(),
        ensures
            match r {
                Ok(ids) => self.has_file_spec(path@) && ids.deep_view() == self.file_ids_spec(
                    path@,
                ),
                Err(e) => e == SyncError::LocalIoError && !self.has_file_spec(path@),
            },
    {
        match self.find_file(path) {
            Some(i) => {
                let ids = self.files[i].ids.clone();
                proof {
                    broadcast use vstd::std_specs::vec::vec_clone_deep_view_proof;

                    let j = choose|j: int|
                        0 <= j < self.files@.len() && self.files@[j].path@ == path@;
                    if j != i {
                        assert(self.files@[j].path@ == self.files@[i as int].path@);
                        assert(!file_paths_unique(self.files@));
                    }
                    assert(ids.deep_view() =~= self.files@[i as int].ids.deep_view());
                }
                Ok(ids)
            },
            None => Err(SyncError::LocalIoError),
        }
    }
}

} // verus!
