//! In-memory local metadata registry: one record per synchronized path,
//! plus the highest remote watermark observed so far.

use vstd::prelude::*;
use crate::records::FileRecordCreateForm;
use crate::seq_util::{lemma_filter_empty, lemma_filter_singleton};

verus! {

/// One registry row. `jid` is the remote watermark of the last commit
/// covering this path, `dirty` marks content modified locally since the
/// last upload.
pub struct RegistryRecord {
    pub jid: Option<i32>,
    pub path: String,
    pub size: i64,
    pub format: String,
    pub modified_at: i64,
    pub dirty: bool,
}

impl Clone for RegistryRecord {
    fn clone(&self) -> (r: Self)
        ensures
            r == *self,
    {
        RegistryRecord {
            jid: self.jid,
            path: self.path.clone(),
            size: self.size,
            format: self.format.clone(),
            modified_at: self.modified_at,
            dirty: self.dirty,
        }
    }
}

pub open spec fn rec_has(s: Seq<RegistryRecord>, p: Seq<char>) -> bool {
    exists|j: int| 0 <= j < s.len() && s[j].path@ == p
}

/// The record stored under path `p`; meaningful only when `rec_has` holds
/// and paths are unique.
pub open spec fn rec_at(s: Seq<RegistryRecord>, p: Seq<char>) -> RegistryRecord {
    s[choose|j: int| 0 <= j < s.len() && s[j].path@ == p]
}

pub open spec fn rec_paths_unique(s: Seq<RegistryRecord>) -> bool {
    forall|i: int, j: int| 0 <= i < j < s.len() ==> s[i].path@ != s[j].path@
}

/// Replacing the record at a path's index rebinds exactly that path.
proof fn lemma_rec_set(s: Seq<RegistryRecord>, i: int, e: RegistryRecord)
    requires
        rec_paths_unique(s),
        0 <= i < s.len(),
        s[i].path@ == e.path@,
    ensures
        rec_paths_unique(s.update(i, e)),
        rec_has(s.update(i, e), e.path@),
        rec_at(s.update(i, e), e.path@) == e,
        forall|p: Seq<char>| p != e.path@ ==> rec_has(s.update(i, e), p) == rec_has(s, p),
        forall|p: Seq<char>|
            p != e.path@ && rec_has(s, p) ==> rec_at(s.update(i, e), p) == rec_at(s, p),
{
    let t = s.update(i, e);
    assert(t[i].path@ == e.path@);
    let w = choose|j: int| 0 <= j < t.len() && t[j].path@ == e.path@;
    if w != i {
        assert(s[w].path@ == s[i].path@);
    }
    assert forall|p: Seq<char>| p != e.path@ implies rec_has(t, p) == rec_has(s, p) by {
        if rec_has(t, p) {
            let j = choose|j: int| 0 <= j < t.len() && t[j].path@ == p;
            assert(j != i);
            assert(s[j].path@ == p);
        }
        if rec_has(s, p) {
            let j = choose|j: int| 0 <= j < s.len() && s[j].path@ == p;
            assert(j != i);
            assert(t[j].path@ == p);
        }
    }
    assert forall|p: Seq<char>| p != e.path@ && rec_has(s, p) implies rec_at(t, p) == rec_at(
        s,
        p,
    ) by {
        let j = choose|j: int| 0 <= j < t.len() && t[j].path@ == p;
        let j2 = choose|j2: int| 0 <= j2 < s.len() && s[j2].path@ == p;
        assert(j != i && j2 != i);
        assert(t[j].path@ == p && s[j2].path@ == p);
        if j != j2 {
            assert(s[j].path@ == s[j2].path@);
        }
    }
}

/// Appending a record for a fresh path binds exactly that path.
proof fn lemma_rec_push(s: Seq<RegistryRecord>, e: RegistryRecord)
    requires
        rec_paths_unique(s),
        !rec_has(s, e.path@),
    ensures
        rec_paths_unique(s.push(e)),
        rec_has(s.push(e), e.path@),
        rec_at(s.push(e), e.path@) == e,
        forall|p: Seq<char>| p != e.path@ ==> rec_has(s.push(e), p) == rec_has(s, p),
        forall|p: Seq<char>|
            p != e.path@ && rec_has(s, p) ==> rec_at(s.push(e), p) == rec_at(s, p),
{
    let t = s.push(e);
    assert(t[s.len() as int].path@ == e.path@);
    assert forall|i: int, j: int| 0 <= i < j < t.len() implies t[i].path@ != t[j].path@ by {
        if j < s.len() {
        } else {
            assert(t[j] == e);
            assert(t[i] == s[i]);
        }
    }
    let w = choose|j: int| 0 <= j < t.len() && t[j].path@ == e.path@;
    if w < s.len() {
        assert(rec_has(s, e.path@));
    }
    assert forall|p: Seq<char>| p != e.path@ implies rec_has(t, p) == rec_has(s, p) by {
        if rec_has(t, p) {
            let j = choose|j: int| 0 <= j < t.len() && t[j].path@ == p;
            assert(j < s.len());
            assert(s[j].path@ == p);
        }
        if rec_has(s, p) {
            let j = choose|j: int| 0 <= j < s.len() && s[j].path@ == p;
            assert(t[j].path@ == p);
        }
    }
    assert forall|p: Seq<char>| p != e.path@ && rec_has(s, p) implies rec_at(t, p) == rec_at(
        s,
        p,
    ) by {
        let j = choose|j: int| 0 <= j < t.len() && t[j].path@ == p;
        let j2 = choose|j2: int| 0 <= j2 < s.len() && s[j2].path@ == p;
        assert(t[j].path@ == p && s[j2].path@ == p);
        assert(j < s.len());
        if j != j2 {
            assert(s[j].path@ == s[j2].path@);
        }
    }
}

/// The local metadata ledger. The watermark is the highest remote jid the
/// registry has recorded; no record carries a jid above it.
pub struct LocalRegistry {
    pub records: Vec<RegistryRecord>,
    pub watermark: i32,
}

impl LocalRegistry {
    pub open spec fn wf(&self) -> bool {
        rec_paths_unique(self.records@) && self.watermark >= 0 && forall|j: int|
            0 <= j < self.records@.len() ==> match (#[trigger] self.records@[j]).jid {
                Some(v) => 0 <= v <= self.watermark,
                None => true,
            }
    }

    pub open spec fn has_record_spec(&self, p: Seq<char>) -> bool {
        rec_has(self.records@, p)
    }

    pub open spec fn record_spec(&self, p: Seq<char>) -> RegistryRecord {
        rec_at(self.records@, p)
    }

    /// Whether the path is marked locally modified and not yet uploaded.
    pub open spec fn dirty_spec(&self, p: Seq<char>) -> bool {
        rec_has(self.records@, p) && rec_at(self.records@, p).dirty
    }

    pub fn new() -> (r: LocalRegistry)
        ensures
            r.wf(),
            r.watermark == 0,
            forall|p: Seq<char>| !r.has_record_spec(p),
    {
        LocalRegistry { records: Vec::new(), watermark: 0 }
    }

    /// The highest remote watermark recorded locally; zero when nothing
    /// has been recorded yet.
    pub fn latest_watermark(&self) -> (r: i32)
        ensures
            r == self.watermark,
    {
        self.watermark
    }

    fn find_record(&self, path: &String) -> (r: Option<usize>)
        ensures
            match r {
                Some(i) => i < self.records.len() && self.records@[i as int].path@ == path@,
                None => !self.has_record_spec(path@),
            },
    {
        let mut j: usize = 0;
        while j < self.records.len()
            invariant
                0 <= j <= self.records.len(),
                forall|jj: int| 0 <= jj < j ==> self.records@[jj].path@ != path@,
            decreases self.records.len() - j,
        {
            if self.records[j].path == *path {
                return Some(j);
            }
            j = j + 1;
        }
        None
    }

    /// Inserts or updates the record for a path from a create form. A
    /// record written from the remote listing is clean (not locally
    /// modified), and the watermark rises to the form's jid when that is
    /// higher.
    pub fn upsert_record(&mut self, form: FileRecordCreateForm)
        requires
            old(self).wf(),
            form.jid matches Some(j) ==> j >= 0,
        ensures
            final(self).wf(),
            final(self).has_record_spec(form.path@),
            ({
                let r = final(self).record_spec(form.path@);
                r.jid == form.jid && r.path@ == form.path@ && r.size == form.size && r.format@
                    == form.format@ && r.modified_at == form.modified_at && !r.dirty
            }),
            forall|p: Seq<char>|
                p != form.path@ ==> final(self).has_record_spec(p) == old(self).has_record_spec(p),
            forall|p: Seq<char>|
                p != form.path@ && old(self).has_record_spec(p) ==> final(self).record_spec(p)
                    == old(self).record_spec(p),
            final(self).watermark == if form.jid matches Some(j) && j > old(self).watermark {
                form.jid.unwrap()
            } else {
                old(self).watermark
            },
    {
        let new_jid: Option<i32> = form.jid;
        let entry = RegistryRecord {
            jid: form.jid,
            path: form.path,
            size: form.size,
            format: form.format,
            modified_at: form.modified_at,
            dirty: false,
        };
        match self.find_record(&entry.path) {
            Some(i) => {
                proof {
                    lemma_rec_set(self.records@, i as int, entry);
                }
                self.records.remove(i);
                self.records.insert(i, entry);
                proof {
                    assert(self.records@ =~= old(self).records@.update(i as int, entry));
                }
            },
            None => {
                proof {
                    lemma_rec_push(self.records@, entry);
                }
                self.records.push(entry);
            },
        }
        match new_jid {
            Some(j) => {
                if j > self.watermark {
                    self.watermark = j;
                }
            },
            None => {},
        }
    }

    /// Marks a path as modified locally since its last upload; the upload
    /// loop will pick it up. The watermark and every other record stay.
    pub fn note_local_change(&mut self, path: &String)
        requires
            old(self).wf(),
            old(self).has_record_spec(path@),
        ensures
            final(self).wf(),
            final(self).watermark == old(self).watermark,
            final(self).has_record_spec(path@),
            ({
                let r = final(self).record_spec(path@);
                let o = old(self).record_spec(path@);
                r.dirty && r.jid == o.jid && r.path@ == o.path@ && r.size == o.size && r.format@
                    == o.format@ && r.modified_at == o.modified_at
            }),
            forall|p: Seq<char>|
                p != path@ ==> final(self).has_record_spec(p) == old(self).has_record_spec(p),
            forall|p: Seq<char>|
                p != path@ && old(self).has_record_spec(p) ==> final(self).record_spec(p) == old(
                    self,
                ).record_spec(p),
    {
        if let Some(i) = self.find_record(path) {
            let o = self.records[i].clone();
            let entry = RegistryRecord {
                jid: o.jid,
                path: o.path,
                size: o.size,
                format: o.format,
                modified_at: o.modified_at,
                dirty: true,
            };
            proof {
                let j = choose|j: int|
                    0 <= j < self.records@.len() && self.records@[j].path@ == path@;
                if j != i {
                    assert(self.records@[j].path@ == self.records@[i as int].path@);
                }
                lemma_rec_set(self.records@, i as int, entry);
            }
            self.records.remove(i);
            self.records.insert(i, entry);
            proof {
                assert(self.records@ =~= old(self).records@.update(i as int, entry));
            }
        }
    }

    /// Records the watermark the remote assigned when this path's commit
    /// succeeded, and clears the modified mark.
    pub fn update_remote_id(&mut self, path: &String, jid: i32)
        requires
            old(self).wf(),
            old(self).has_record_spec(path@),
            jid >= 0,
        ensures
            final(self).wf(),
            final(self).has_record_spec(path@),
            ({
                let r = final(self).record_spec(path@);
                let o = old(self).record_spec(path@);
                r.jid == Some(jid) && !r.dirty && r.path@ == o.path@ && r.size == o.size
                    && r.format@ == o.format@ && r.modified_at == o.modified_at
            }),
            forall|p: Seq<char>|
                p != path@ ==> final(self).has_record_spec(p) == old(self).has_record_spec(p),
            forall|p: Seq<char>|
                p != path@ && old(self).has_record_spec(p) ==> final(self).record_spec(p) == old(
                    self,
                ).record_spec(p),
            final(self).watermark == if jid > old(self).watermark {
                jid
            } else {
                old(self).watermark
            },
    {
        if let Some(i) = self.find_record(path) {
            let o = self.records[i].clone();
            let entry = RegistryRecord {
                jid: Some(jid),
                path: o.path,
                size: o.size,
                format: o.format,
                modified_at: o.modified_at,
                dirty: false,
            };
            proof {
                let j = choose|j: int|
                    0 <= j < self.records@.len() && self.records@[j].path@ == path@;
                if j != i {
                    assert(self.records@[j].path@ == self.records@[i as int].path@);
                }
                lemma_rec_set(self.records@, i as int, entry);
            }
            self.records.remove(i);
            self.records.insert(i, entry);
            proof {
                assert(self.records@ =~= old(self).records@.update(i as int, entry));
            }
            if jid > self.watermark {
                self.watermark = jid;
            }
        }
    }

    /// Every record whose content changed locally since its last upload,
    /// in registry order: the upload loop's work queue.
    pub fn locally_modified_records(&self) -> (r: Vec<RegistryRecord>)
        ensures
            r@ == self.records@.filter(|x: RegistryRecord| x.dirty),
    {
        let mut r: Vec<RegistryRecord> = Vec::new();
        let mut i: usize = 0;
        proof {
            assert(self.records@.subrange(0, 0) =~= Seq::<RegistryRecord>::empty());
            lemma_filter_empty::<RegistryRecord>(|x: RegistryRecord| x.dirty);
        }
        while i < self.records.len()
            invariant
                0 <= i <= self.records.len(),
                r@ == self.records@.subrange(0, i as int).filter(|x: RegistryRecord| x.dirty),
            decreases self.records.len() - i,
        {
            let rec = self.records[i].clone();
            proof {
                let pred = |x: RegistryRecord| x.dirty;
                let pre = self.records@.subrange(0, i as int);
                assert(self.records@.subrange(0, i + 1) =~= pre + seq![self.records@[i as int]]);
                Seq::<RegistryRecord>::filter_distributes_over_add(
                    pre,
                    seq![self.records@[i as int]],
                    pred,
                );
                lemma_filter_singleton(self.records@[i as int], pred);
                if !rec.dirty {
                    assert(r@ + Seq::<RegistryRecord>::empty() =~= r@);
                }
            }
            if rec.dirty {
                r.push(rec);
            }
            i = i + 1;
        }
        proof {
            assert(self.records@.subrange(0, self.records@.len() as int) =~= self.records@);
        }
        r
    }
}

} // verus!
