//! Model of the mutual-exclusion discipline around the shared chunk
//! store. The download and upload loops each access the store in two
//! halves — begin a read or write of a chunk, then finish it — and must
//! hold the lock across the pair. The interpreter below runs the two
//! loops under an arbitrary schedule and shows that the accesses never
//! interleave: a begun access is always finished by the same task before
//! the other task touches the store.

use vstd::prelude::*;

verus! {

/// One half of a store access: which loop performed it (`by_upload`
/// false marks the download loop) and whether it opens or closes the
/// access to a chunk.
#[derive(PartialEq, Eq, Structural, Clone, Copy, Debug)]
pub struct AccessEvent {
    pub by_upload: bool,
    pub begin: bool,
}

/// No torn access: whatever follows a begin is the same task's finish,
/// and every finish closes the same task's immediately preceding begin.
pub open spec fn exclusive_trace(t: Seq<AccessEvent>) -> bool {
    (forall|i: int|
        0 <= i < t.len() && (#[trigger] t[i]).begin && i + 1 < t.len() ==> t[i + 1].by_upload == t[
            i
        ].by_upload && !t[i + 1].begin) && (forall|i: int|
        0 <= i < t.len() && !(#[trigger] t[i]).begin ==> i >= 1 && t[i - 1].by_upload == t[
            i
        ].by_upload && t[i - 1].begin)
}

/// The interpreter's state after a prefix of the schedule: the trace
/// written so far and the lock holder (0 free, 1 download, 2 upload). A
/// scheduled task finishes its open access, or takes the free lock and
/// begins one, or stalls silently while the other task holds it.
pub open spec fn lock_run(schedule: Seq<bool>) -> (Seq<AccessEvent>, u8)
    decreases schedule.len(),
{
    if schedule.len() == 0 {
        (Seq::<AccessEvent>::empty(), 0u8)
    } else {
        let prior = lock_run(schedule.drop_last());
        let t = prior.0;
        let h = prior.1;
        let up = schedule.last();
        let want: u8 = if up { 2u8 } else { 1u8 };
        if h == want {
            (t.push((AccessEvent { by_upload: up, begin: false })), 0u8)
        } else if h == 0 {
            (t.push((AccessEvent { by_upload: up, begin: true })), want)
        } else {
            (t, h)
        }
    }
}

/// The access trace the two loops produce under a schedule.
pub open spec fn lock_trace_of(schedule: Seq<bool>) -> Seq<AccessEvent> {
    lock_run(schedule).0
}

/// Runs the download and upload loops' store accesses under the given
/// schedule (one entry per turn, true scheduling the upload loop). The
/// trace is exactly the interpreter's, and whatever the schedule it is
/// exclusive.
#[verifier::loop_isolation(false)]
pub fn run_lock_schedule(schedule: &Vec<bool>) -> (trace: Vec<AccessEvent>)
    ensures
        trace@ == lock_trace_of(schedule@),
        exclusive_trace(trace@),
        trace@.len() <= schedule@.len(),
{
    let mut trace: Vec<AccessEvent> = Vec::new();
    let mut holder: u8 = 0;
    let mut s: usize = 0;
    proof {
        assert(schedule@.subrange(0, 0) =~= Seq::<bool>::empty());
        assert(trace@ =~= Seq::<AccessEvent>::empty());
        assert((trace@, holder) == lock_run(schedule@.subrange(0, 0)));
    }
    while s < schedule.len()
        invariant
            0 <= s <= schedule.len(),
            holder == 0 || holder == 1 || holder == 2,
            (trace@, holder) == lock_run(schedule@.subrange(0, s as int)),
            exclusive_trace(trace@),
            trace@.len() <= s,
            holder == 0 ==> (trace@.len() == 0 || !trace@.last().begin),
            holder == 1 ==> trace@.len() >= 1 && trace@.last().begin && !trace@.last().by_upload,
            holder == 2 ==> trace@.len() >= 1 && trace@.last().begin && trace@.last().by_upload,
        decreases schedule.len() - s,
    {
        let up = schedule[s];
        let want: u8 = if up {
            2
        } else {
            1
        };
        let ghost old_t = trace@;
        if holder == want {
            let ev = AccessEvent { by_upload: up, begin: false };
            trace.push(ev);
            holder = 0;
            proof {
                let t = trace@;
                assert(t =~= old_t.push(ev));
                assert forall|i: int|
                    0 <= i < t.len() && (#[trigger] t[i]).begin && i + 1 < t.len() implies (t[i
                    + 1].by_upload == t[i].by_upload && !t[i + 1].begin) by {
                    if i + 1 < old_t.len() {
                        assert(t[i] == old_t[i] && t[i + 1] == old_t[i + 1]);
                    } else {
                        assert(t[i] == old_t.last());
                        assert(t[i + 1] == ev);
                    }
                }
                assert forall|i: int| 0 <= i < t.len() && !(#[trigger] t[i]).begin implies (i >= 1
                    && t[i - 1].by_upload == t[i].by_upload && t[i - 1].begin) by {
                    if i < old_t.len() {
                        assert(t[i] == old_t[i]);
                        if !old_t[i].begin {
                            assert(t[i - 1] == old_t[i - 1]);
                        }
                    } else {
                        assert(t[i] == ev);
                        assert(t[i - 1] == old_t.last());
                    }
                }
            }
        } else if holder == 0 {
            let ev = AccessEvent { by_upload: up, begin: true };
            trace.push(ev);
            holder = want;
            proof {
                let t = trace@;
                assert(t =~= old_t.push(ev));
                assert forall|i: int|
                    0 <= i < t.len() && (#[trigger] t[i]).begin && i + 1 < t.len() implies (t[i
                    + 1].by_upload == t[i].by_upload && !t[i + 1].begin) by {
                    if i + 1 < old_t.len() {
                        assert(t[i] == old_t[i] && t[i + 1] == old_t[i + 1]);
                    } else {
                        assert(i + 1 == old_t.len());
                        assert(t[i] == old_t.last());
                    }
                }
                assert forall|i: int| 0 <= i < t.len() && !(#[trigger] t[i]).begin implies (i >= 1
                    && t[i - 1].by_upload == t[i].by_upload && t[i - 1].begin) by {
                    if i < old_t.len() {
                        assert(t[i] == old_t[i]);
                        if !old_t[i].begin {
                            assert(t[i - 1] == old_t[i - 1]);
                        }
                    } else {
                        assert(t[i] == ev);
                    }
                }
            }
        }
        proof {
            let sub1 = schedule@.subrange(0, s + 1);
            assert(sub1.drop_last() =~= schedule@.subrange(0, s as int));
            assert(sub1.last() == schedule@[s as int]);
        }
        s = s + 1;
    }
    proof {
        assert(schedule@.subrange(0, schedule@.len() as int) =~= schedule@);
    }
    trace
}

/// Checks a trace for exclusivity; answers exactly `exclusive_trace`.
#[verifier::loop_isolation(false)]
pub fn trace_is_exclusive(trace: &Vec<AccessEvent>) -> (r: bool)
    ensures
        r == exclusive_trace(trace@),
{
    let t_len = trace.len();
    let mut i: usize = 0;
    while i < t_len
        invariant
            0 <= i <= t_len,
            t_len == trace@.len(),
            forall|j: int|
                0 <= j < i && (#[trigger] trace@[j]).begin && j + 1 < trace@.len()
                    ==> trace@[j + 1].by_upload == trace@[j].by_upload && !trace@[j + 1].begin,
            forall|j: int|
                0 <= j < i && !(#[trigger] trace@[j]).begin ==> j >= 1 && trace@[j
                    - 1].by_upload == trace@[j].by_upload && trace@[j - 1].begin,
        decreases t_len - i,
    {
        if trace[i].begin {
            if i + 1 < t_len {
                if trace[i + 1].begin || trace[i + 1].by_upload != trace[i].by_upload {
                    return false;
                }
            }
        } else {
            if i == 0 {
                return false;
            }
            if !trace[i - 1].begin || trace[i - 1].by_upload != trace[i].by_upload {
                return false;
            }
        }
        i = i + 1;
    }
    true
}

} // verus!
