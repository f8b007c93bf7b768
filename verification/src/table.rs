//! The mathematical model of the job table: what a job and a table hold,
//! what the table's operations make of a table, and what holds of the
//! tables that they make.

use vstd::prelude::*;
use crate::jobs::{JobState, MAX_JOBID, MAX_NUM_JOBS};
use crate::text::{decimal_text, trimmed};

verus! {

/// The mathematical content of a job.
pub ghost struct JobView {
    pub pid: i32,
    pub jid: i32,
    pub state: JobState,
    pub cmdline: Seq<char>,
}

/// What a scan of the table looks for in a slot.
#[derive(Debug, Copy, Clone, PartialEq, Eq, Structural)]
pub enum Probe {
    /// An empty slot.
    Free,
    /// A job with this process id.
    Pid(i32),
    /// A job with this job id.
    Jid(i32),
    /// A job in the foreground.
    Foreground,
}

/// Whether a slot is what the probe looks for.
pub open spec fn slot_matches(slot: Option<JobView>, probe: Probe) -> bool {
    match probe {
        Probe::Free => slot is None,
        Probe::Pid(pid) => slot is Some && slot->0.pid == pid,
        Probe::Jid(jid) => slot is Some && slot->0.jid == jid,
        Probe::Foreground => slot is Some && slot->0.state == JobState::FG,
    }
}

/// A slot whose job, if it was in the foreground, runs in the background
/// instead.
pub open spec fn unseated_slot(slot: Option<JobView>) -> Option<JobView> {
    match slot {
        Some(job) => if job.state == JobState::FG {
            Some(JobView { state: JobState::BG, ..job })
        } else {
            slot
        },
        None => None,
    }
}

/// The job id that follows `jid` in the order of allocation: one more, and
/// 1 after the largest.
pub open spec fn next_jid_after(jid: int) -> i32 {
    if jid >= MAX_JOBID {
        1
    } else {
        (jid + 1) as i32
    }
}

/// The largest job id among the first `n` slots, 0 where none of them holds
/// a job with a positive id.
pub open spec fn max_jid_upto(slots: Seq<Option<JobView>>, n: int) -> int
    decreases n,
{
    if n <= 0 {
        0
    } else {
        let m = max_jid_upto(slots, n - 1);
        match slots[n - 1] {
            Some(j) => if j.jid > m { j.jid as int } else { m },
            None => m,
        }
    }
}

/// The word by which a listing names a run state.
pub open spec fn state_label(state: JobState) -> Seq<char> {
    match state {
        JobState::BG => "Running"@,
        JobState::FG => "Foreground"@,
        JobState::Stop => "Stopped"@,
    }
}

/// The line of a listing for one job: its job id in square brackets, its
/// process id in round brackets, its state and its command line without
/// the white space around it.
pub open spec fn job_line(job: JobView) -> Seq<char> {
    "["@ + decimal_text(job.jid as int) + "] ("@ + decimal_text(job.pid as int) + ") "@
        + state_label(job.state) + " "@ + trimmed(job.cmdline) + "\n"@
}

/// The lines for the jobs in the first `n` slots, in the order of the
/// slots.
pub open spec fn listing_upto(slots: Seq<Option<JobView>>, n: int) -> Seq<char>
    decreases n,
{
    if n <= 0 {
        Seq::empty()
    } else {
        listing_upto(slots, n - 1) + match slots[n - 1] {
            Some(job) => job_line(job),
            None => Seq::empty(),
        }
    }
}

/// The mathematical content of a job table.
#[verifier::ext_equal]
pub ghost struct JobListView {
    pub slots: Seq<Option<JobView>>,
    pub next_jid: i32,
}

impl JobListView {
    /// The counter and every live job id lie between 1 and `MAX_JOBID`,
    /// and at most one job is in the foreground.
    pub open spec fn wf(self) -> bool {
        &&& self.slots.len() == MAX_NUM_JOBS
        &&& 1 <= self.next_jid <= MAX_JOBID
        &&& forall|i: int|
            0 <= i < self.slots.len() && (#[trigger] self.slots[i]) is Some ==> 1
                <= self.slots[i]->0.jid <= MAX_JOBID
        &&& self.at_most_one_fg()
    }

    /// The table with every job that was in the foreground running in the
    /// background instead.
    pub open spec fn unseated(self) -> Self {
        JobListView {
            slots: Seq::new(self.slots.len(), |k: int| unseated_slot(self.slots[k])),
            next_jid: self.next_jid,
        }
    }

    /// The table as it is before a job takes this state: for the
    /// foreground every job is taken out of it first, for any other state
    /// nothing changes.
    pub open spec fn cleared_for(self, state: JobState) -> Self {
        if state == JobState::FG {
            self.unseated()
        } else {
            self
        }
    }

    /// Slot `i` is the lowest one that matches the probe.
    pub open spec fn is_first(self, i: int, probe: Probe) -> bool {
        &&& 0 <= i < self.slots.len()
        &&& slot_matches(self.slots[i], probe)
        &&& forall|k: int| 0 <= k < i ==> !slot_matches(#[trigger] self.slots[k], probe)
    }

    /// No slot matches the probe.
    pub open spec fn lacks(self, probe: Probe) -> bool {
        forall|k: int| 0 <= k < self.slots.len() ==> !slot_matches(#[trigger] self.slots[k], probe)
    }

    /// The lowest slot that matches the probe, if there is one.
    pub open spec fn first(self, probe: Probe) -> Option<int> {
        if exists|i: int| self.is_first(i, probe) {
            Some(choose|i: int| self.is_first(i, probe))
        } else {
            None
        }
    }

    /// The job found by the probe, if there is one.
    pub open spec fn job(self, probe: Probe) -> Option<JobView> {
        match self.first(probe) {
            Some(i) => self.slots[i],
            None => None,
        }
    }

    /// The largest live job id, 0 for an empty table.
    pub open spec fn max_jid(self) -> int {
        max_jid_upto(self.slots, self.slots.len() as int)
    }

    /// One line for each live job, in the order of the slots.
    pub open spec fn listing(self) -> Seq<char> {
        listing_upto(self.slots, self.slots.len() as int)
    }

    /// The table after a job was stored in slot `i` under the current
    /// counter value. A job that is stored in the foreground takes the
    /// place of the one that was there, which goes to the background.
    pub open spec fn added(self, i: int, pid: i32, state: JobState, cmdline: Seq<char>) -> Self {
        JobListView {
            slots: self.cleared_for(state).slots.update(
                i,
                Some(JobView { pid: pid, jid: self.next_jid, state: state, cmdline: cmdline }),
            ),
            next_jid: next_jid_after(self.next_jid as int),
        }
    }

    /// The table after slot `i` was cleared.
    pub open spec fn removed(self, i: int) -> Self {
        let slots = self.slots.update(i, None);
        JobListView {
            slots: slots,
            next_jid: next_jid_after(max_jid_upto(slots, slots.len() as int)),
        }
    }

    /// The table with the job in slot `i` replaced.
    pub open spec fn with_job(self, i: int, job: JobView) -> Self {
        JobListView { slots: self.slots.update(i, Some(job)), next_jid: self.next_jid }
    }

    /// No two live jobs share a process id.
    pub open spec fn pids_distinct(self) -> bool {
        forall|i: int, k: int|
            0 <= i < self.slots.len() && 0 <= k < self.slots.len() && (#[trigger] self.slots[i])
                is Some && (#[trigger] self.slots[k]) is Some && self.slots[i]->0.pid
                == self.slots[k]->0.pid ==> i == k
    }

    /// No two live jobs share a job id.
    pub open spec fn jids_distinct(self) -> bool {
        forall|i: int, k: int|
            0 <= i < self.slots.len() && 0 <= k < self.slots.len() && (#[trigger] self.slots[i])
                is Some && (#[trigger] self.slots[k]) is Some && self.slots[i]->0.jid
                == self.slots[k]->0.jid ==> i == k
    }

    /// Every job in the foreground has this process id.
    pub open spec fn only_foreground(self, pid: i32) -> bool {
        forall|i: int|
            0 <= i < self.slots.len() && slot_matches(#[trigger] self.slots[i], Probe::Foreground)
                ==> self.slots[i]->0.pid == pid
    }

    /// The table with the state of the job in slot `i` set.
    pub open spec fn with_state(self, i: int, state: JobState) -> Self {
        self.with_job(i, JobView { state: state, ..self.slots[i]->0 })
    }

    /// The table after the job in slot `i` was given this state. A job
    /// that is brought to the foreground takes the place of the one that
    /// was there, which goes to the background.
    pub open spec fn moved_to(self, i: int, state: JobState) -> Self {
        self.cleared_for(state).with_state(i, state)
    }

    /// At most one job is in the foreground.
    pub open spec fn at_most_one_fg(self) -> bool {
        forall|i: int, k: int|
            0 <= i < self.slots.len() && 0 <= k < self.slots.len() && slot_matches(
                #[trigger] self.slots[i],
                Probe::Foreground,
            ) && slot_matches(#[trigger] self.slots[k], Probe::Foreground) ==> i == k
    }
}

/// The lowest matching slot is the one that `first` names.
pub proof fn lemma_first_is(t: JobListView, i: int, probe: Probe)
    requires
        t.is_first(i, probe),
    ensures
        t.first(probe) == Some(i),
{
    let c = choose|c: int| t.is_first(c, probe);
    assert(t.is_first(c, probe));
    if c < i {
        assert(!slot_matches(t.slots[c], probe));
    }
    if i < c {
        assert(!slot_matches(t.slots[i], probe));
    }
}

/// Where no slot matches, `first` names none.
pub proof fn lemma_first_none(t: JobListView, probe: Probe)
    requires
        t.lacks(probe),
    ensures
        t.first(probe) is None,
{
    if exists|i: int| t.is_first(i, probe) {
        let c = choose|c: int| t.is_first(c, probe);
        assert(!slot_matches(t.slots[c], probe));
    }
}

/// What `first` names is the lowest matching slot, and it names none only
/// where no slot matches.
pub proof fn lemma_first_found(t: JobListView, probe: Probe)
    ensures
        match t.first(probe) {
            Some(i) => t.is_first(i, probe),
            None => t.lacks(probe),
        },
{
    if t.first(probe) is None {
        if !t.lacks(probe) {
            let k = choose|k: int| 0 <= k < t.slots.len() && slot_matches(t.slots[k], probe);
            lemma_lowest_exists(t, k, probe);
        }
    }
}

/// Below any matching slot there is a lowest one.
proof fn lemma_lowest_exists(t: JobListView, k: int, probe: Probe)
    requires
        0 <= k < t.slots.len(),
        slot_matches(t.slots[k], probe),
    ensures
        exists|i: int| t.is_first(i, probe),
    decreases k,
{
    if exists|m: int| 0 <= m < k && slot_matches(t.slots[m], probe) {
        let m = choose|m: int| 0 <= m < k && slot_matches(t.slots[m], probe);
        lemma_lowest_exists(t, m, probe);
    } else {
        assert(t.is_first(k, probe));
    }
}

/// The largest job id among the first `n` slots is 0 or the id of a job in
/// one of them, and no job among them has a larger one.
pub proof fn lemma_max_jid_bounds(slots: Seq<Option<JobView>>, n: int)
    requires
        0 <= n <= slots.len(),
    ensures
        0 <= max_jid_upto(slots, n),
        forall|i: int|
            0 <= i < n && (#[trigger] slots[i]) is Some ==> slots[i]->0.jid <= max_jid_upto(
                slots,
                n,
            ),
        max_jid_upto(slots, n) == 0 || exists|i: int|
            0 <= i < n && (#[trigger] slots[i]) is Some && slots[i]->0.jid == max_jid_upto(
                slots,
                n,
            ),
    decreases n,
{
    if n > 0 {
        lemma_max_jid_bounds(slots, n - 1);
        let m = max_jid_upto(slots, n - 1);
        if m != 0 && max_jid_upto(slots, n) == m {
            let w = choose|i: int| 0 <= i < n - 1 && (#[trigger] slots[i]) is Some && slots[i]->0.jid == m;
            assert(0 <= w < n && slots[w] is Some && slots[w]->0.jid == max_jid_upto(slots, n));
        } else if max_jid_upto(slots, n) != m {
            assert(slots[n - 1] is Some && slots[n - 1]->0.jid == max_jid_upto(slots, n));
        }
    }
}

/// A table without jobs: no two jobs share an id, none is in the
/// foreground, and no job id is in use.
pub proof fn lemma_empty_table(t: JobListView)
    requires
        forall|i: int| 0 <= i < t.slots.len() ==> (#[trigger] t.slots[i]) is None,
    ensures
        t.pids_distinct(),
        t.jids_distinct(),
        t.at_most_one_fg(),
        t.lacks(Probe::Foreground),
        t.max_jid() == 0,
{
    lemma_max_jid_bounds(t.slots, t.slots.len() as int);
}

/// Taking the jobs out of the foreground changes no slot but in the state
/// of a job that was there: the same slots are empty, each job keeps its
/// ids and its command line, and no job is in the foreground afterwards.
pub proof fn lemma_unseated(t: JobListView)
    ensures
        t.unseated().slots.len() == t.slots.len(),
        t.unseated().next_jid == t.next_jid,
        forall|k: int|
            0 <= k < t.slots.len() ==> (#[trigger] t.unseated().slots[k]) == unseated_slot(
                t.slots[k],
            ),
        t.unseated().lacks(Probe::Foreground),
        t.unseated().at_most_one_fg(),
        t.unseated().pids_distinct() <==> t.pids_distinct(),
        t.unseated().jids_distinct() <==> t.jids_distinct(),
        t.unseated().max_jid() == t.max_jid(),
{
    let u = t.unseated();
    assert forall|k: int| 0 <= k < t.slots.len() implies (#[trigger] u.slots[k]) == unseated_slot(
        t.slots[k],
    ) by {}
    if t.pids_distinct() {
        assert forall|a: int, b: int|
            0 <= a < u.slots.len() && 0 <= b < u.slots.len() && (#[trigger] u.slots[a]) is Some && (
            #[trigger] u.slots[b]) is Some && u.slots[a]->0.pid == u.slots[b]->0.pid implies a
            == b by {
            assert(t.slots[a] is Some && t.slots[b] is Some);
            assert(t.slots[a]->0.pid == t.slots[b]->0.pid);
        }
    }
    if u.pids_distinct() {
        assert forall|a: int, b: int|
            0 <= a < t.slots.len() && 0 <= b < t.slots.len() && (#[trigger] t.slots[a]) is Some && (
            #[trigger] t.slots[b]) is Some && t.slots[a]->0.pid == t.slots[b]->0.pid implies a
            == b by {
            assert(u.slots[a] is Some && u.slots[b] is Some);
            assert(u.slots[a]->0.pid == u.slots[b]->0.pid);
        }
    }
    if t.jids_distinct() {
        assert forall|a: int, b: int|
            0 <= a < u.slots.len() && 0 <= b < u.slots.len() && (#[trigger] u.slots[a]) is Some && (
            #[trigger] u.slots[b]) is Some && u.slots[a]->0.jid == u.slots[b]->0.jid implies a
            == b by {
            assert(t.slots[a] is Some && t.slots[b] is Some);
            assert(t.slots[a]->0.jid == t.slots[b]->0.jid);
        }
    }
    if u.jids_distinct() {
        assert forall|a: int, b: int|
            0 <= a < t.slots.len() && 0 <= b < t.slots.len() && (#[trigger] t.slots[a]) is Some && (
            #[trigger] t.slots[b]) is Some && t.slots[a]->0.jid == t.slots[b]->0.jid implies a
            == b by {
            assert(u.slots[a] is Some && u.slots[b] is Some);
            assert(u.slots[a]->0.jid == u.slots[b]->0.jid);
        }
    }
    lemma_max_jid_same(t.slots, u.slots, t.slots.len() as int);
}

/// The largest job id depends on the job ids in the slots alone.
pub proof fn lemma_max_jid_same(a: Seq<Option<JobView>>, b: Seq<Option<JobView>>, n: int)
    requires
        0 <= n <= a.len(),
        a.len() == b.len(),
        forall|k: int|
            0 <= k < a.len() ==> ((#[trigger] a[k]) is Some <==> b[k] is Some) && (a[k] is Some
                ==> a[k]->0.jid == b[k]->0.jid),
    ensures
        max_jid_upto(a, n) == max_jid_upto(b, n),
    decreases n,
{
    if n > 0 {
        lemma_max_jid_same(a, b, n - 1);
        assert(a[n - 1] is Some <==> b[n - 1] is Some);
    }
}

/// Taking the jobs out of the foreground moves no job: what is looked for
/// by an empty slot, a process id or a job id is found where it was.
pub proof fn lemma_unseated_first(t: JobListView, probe: Probe)
    requires
        probe != Probe::Foreground,
    ensures
        t.unseated().first(probe) == t.first(probe),
        t.unseated().lacks(probe) <==> t.lacks(probe),
{
    let u = t.unseated();
    lemma_unseated(t);
    assert forall|k: int| 0 <= k < t.slots.len() implies slot_matches(
        #[trigger] u.slots[k],
        probe,
    ) == slot_matches(t.slots[k], probe) by {}
    lemma_first_found(t, probe);
    match t.first(probe) {
        Some(i) => {
            assert(u.is_first(i, probe)) by {
                assert forall|k: int| 0 <= k < i implies !slot_matches(
                    #[trigger] u.slots[k],
                    probe,
                ) by {
                    assert(!slot_matches(t.slots[k], probe));
                }
            }
            lemma_first_is(u, i, probe);
        },
        None => {
            assert forall|k: int| 0 <= k < u.slots.len() implies !slot_matches(
                #[trigger] u.slots[k],
                probe,
            ) by {
                assert(!slot_matches(t.slots[k], probe));
            }
            lemma_first_none(u, probe);
        },
    }
    if u.lacks(probe) {
        assert forall|k: int| 0 <= k < t.slots.len() implies !slot_matches(
            #[trigger] t.slots[k],
            probe,
        ) by {
            assert(!slot_matches(u.slots[k], probe));
        }
    }
}

/// Storing a job in an empty slot leaves the process ids of the live jobs
/// distinct exactly where they were distinct and no live job had the new
/// process id.
pub proof fn lemma_added_pids_distinct(
    t: JobListView,
    i: int,
    pid: i32,
    state: JobState,
    cmdline: Seq<char>,
)
    requires
        t.is_first(i, Probe::Free),
    ensures
        t.added(i, pid, state, cmdline).pids_distinct() <==> t.pids_distinct() && t.lacks(
            Probe::Pid(pid),
        ),
{
    let u = t.added(i, pid, state, cmdline);
    let c = t.cleared_for(state);
    lemma_unseated(t);
    lemma_unseated_first(t, Probe::Pid(pid));
    assert(c.slots[i] is None);
    if c.pids_distinct() && c.lacks(Probe::Pid(pid)) {
        assert forall|a: int, b: int|
            0 <= a < u.slots.len() && 0 <= b < u.slots.len() && (#[trigger] u.slots[a]) is Some && (
            #[trigger] u.slots[b]) is Some && u.slots[a]->0.pid == u.slots[b]->0.pid implies a
            == b by {
            if a != i && b != i {
                assert(u.slots[a] == c.slots[a] && u.slots[b] == c.slots[b]);
            } else if a != i {
                assert(!slot_matches(c.slots[a], Probe::Pid(pid)));
            } else if b != i {
                assert(!slot_matches(c.slots[b], Probe::Pid(pid)));
            }
        }
    }
    if u.pids_distinct() {
        assert forall|a: int, b: int|
            0 <= a < c.slots.len() && 0 <= b < c.slots.len() && (#[trigger] c.slots[a]) is Some && (
            #[trigger] c.slots[b]) is Some && c.slots[a]->0.pid == c.slots[b]->0.pid implies a
            == b by {
            assert(u.slots[a] == c.slots[a] && u.slots[b] == c.slots[b]);
        }
        assert forall|k: int| 0 <= k < c.slots.len() implies !slot_matches(
            #[trigger] c.slots[k],
            Probe::Pid(pid),
        ) by {
            if slot_matches(c.slots[k], Probe::Pid(pid)) {
                assert(u.slots[k] == c.slots[k]);
                assert(u.slots[i] is Some);
            }
        }
    }
}

/// Storing a job in an empty slot leaves the job ids of the live jobs
/// distinct exactly where they were distinct and no live job had the id
/// at which the counter stood.
pub proof fn lemma_added_jids_distinct(
    t: JobListView,
    i: int,
    pid: i32,
    state: JobState,
    cmdline: Seq<char>,
)
    requires
        t.is_first(i, Probe::Free),
    ensures
        t.added(i, pid, state, cmdline).jids_distinct() <==> t.jids_distinct() && t.lacks(
            Probe::Jid(t.next_jid),
        ),
{
    let u = t.added(i, pid, state, cmdline);
    let jid = t.next_jid;
    let c = t.cleared_for(state);
    lemma_unseated(t);
    lemma_unseated_first(t, Probe::Jid(jid));
    assert(c.slots[i] is None);
    if c.jids_distinct() && c.lacks(Probe::Jid(jid)) {
        assert forall|a: int, b: int|
            0 <= a < u.slots.len() && 0 <= b < u.slots.len() && (#[trigger] u.slots[a]) is Some && (
            #[trigger] u.slots[b]) is Some && u.slots[a]->0.jid == u.slots[b]->0.jid implies a
            == b by {
            if a != i && b != i {
                assert(u.slots[a] == c.slots[a] && u.slots[b] == c.slots[b]);
            } else if a != i {
                assert(!slot_matches(c.slots[a], Probe::Jid(jid)));
            } else if b != i {
                assert(!slot_matches(c.slots[b], Probe::Jid(jid)));
            }
        }
    }
    if u.jids_distinct() {
        assert forall|a: int, b: int|
            0 <= a < c.slots.len() && 0 <= b < c.slots.len() && (#[trigger] c.slots[a]) is Some && (
            #[trigger] c.slots[b]) is Some && c.slots[a]->0.jid == c.slots[b]->0.jid implies a
            == b by {
            assert(u.slots[a] == c.slots[a] && u.slots[b] == c.slots[b]);
        }
        assert forall|k: int| 0 <= k < c.slots.len() implies !slot_matches(
            #[trigger] c.slots[k],
            Probe::Jid(jid),
        ) by {
            if slot_matches(c.slots[k], Probe::Jid(jid)) {
                assert(u.slots[k] == c.slots[k]);
                assert(u.slots[i] is Some);
            }
        }
    }
}

/// Clearing a slot leaves distinct process ids and distinct job ids
/// distinct, and takes no job but the one in that slot away.
pub proof fn lemma_removed_distinct(t: JobListView, i: int)
    requires
        0 <= i < t.slots.len(),
    ensures
        t.pids_distinct() ==> t.removed(i).pids_distinct(),
        t.jids_distinct() ==> t.removed(i).jids_distinct(),
        t.removed(i).slots[i] is None,
        forall|k: int| 0 <= k < t.slots.len() && k != i ==> t.removed(i).slots[k] == t.slots[k],
{
    let u = t.removed(i);
    if t.pids_distinct() {
        assert forall|a: int, b: int|
            0 <= a < u.slots.len() && 0 <= b < u.slots.len() && (#[trigger] u.slots[a]) is Some && (
            #[trigger] u.slots[b]) is Some && u.slots[a]->0.pid == u.slots[b]->0.pid implies a
            == b by {
            assert(u.slots[a] == t.slots[a] && u.slots[b] == t.slots[b]);
        }
    }
    if t.jids_distinct() {
        assert forall|a: int, b: int|
            0 <= a < u.slots.len() && 0 <= b < u.slots.len() && (#[trigger] u.slots[a]) is Some && (
            #[trigger] u.slots[b]) is Some && u.slots[a]->0.jid == u.slots[b]->0.jid implies a
            == b by {
            assert(u.slots[a] == t.slots[a] && u.slots[b] == t.slots[b]);
        }
    }
}

/// Once the only job with a process id has left the table, no job has
/// that process id.
pub proof fn lemma_removed_gone(t: JobListView, pid: i32)
    requires
        t.pids_distinct(),
    ensures
        match t.first(Probe::Pid(pid)) {
            Some(i) => t.removed(i).lacks(Probe::Pid(pid)),
            None => t.lacks(Probe::Pid(pid)),
        },
{
    lemma_first_found(t, Probe::Pid(pid));
    if t.first(Probe::Pid(pid)) is Some {
        let i = t.first(Probe::Pid(pid))->0;
        let u = t.removed(i);
        assert forall|k: int| 0 <= k < u.slots.len() implies !slot_matches(
            #[trigger] u.slots[k],
            Probe::Pid(pid),
        ) by {
            if k != i && slot_matches(u.slots[k], Probe::Pid(pid)) {
                assert(u.slots[k] == t.slots[k]);
                assert(t.slots[i] is Some);
            }
        }
    }
}

/// While the counter stands above every live job id, the id it hands out
/// next is the id of no live job.
pub proof fn lemma_counter_fresh(t: JobListView)
    requires
        t.max_jid() < t.next_jid,
    ensures
        t.lacks(Probe::Jid(t.next_jid)),
{
    lemma_max_jid_bounds(t.slots, t.slots.len() as int);
}

/// The largest job id after a slot was overwritten is no larger than the
/// larger of the former largest and the new job's id; after a slot was
/// cleared it is no larger than before.
pub proof fn lemma_max_jid_update(slots: Seq<Option<JobView>>, i: int, slot: Option<JobView>, n: int)
    requires
        0 <= i < slots.len(),
        0 <= n <= slots.len(),
    ensures
        slot is None ==> max_jid_upto(slots.update(i, slot), n) <= max_jid_upto(slots, n),
        slot is Some ==> max_jid_upto(slots.update(i, slot), n) <= max_jid_upto(slots, n)
            || max_jid_upto(slots.update(i, slot), n) == slot->0.jid,
    decreases n,
{
    if n > 0 {
        lemma_max_jid_update(slots, i, slot, n - 1);
    }
}

/// After a removal the counter stands above every live job id, unless a
/// live job has the largest id there is.
pub proof fn lemma_removed_counter_above(t: JobListView, i: int)
    requires
        0 <= i < t.slots.len(),
    ensures
        t.removed(i).max_jid() <= t.max_jid(),
        t.removed(i).max_jid() < MAX_JOBID ==> t.removed(i).next_jid == t.removed(i).max_jid() + 1,
{
    lemma_max_jid_update(t.slots, i, None, t.slots.len() as int);
    lemma_max_jid_bounds(t.slots.update(i, None), t.slots.len() as int);
}

/// After an addition the counter stands above every live job id, where it
/// did so before and had not reached the largest id there is.
pub proof fn lemma_added_counter_above(
    t: JobListView,
    i: int,
    pid: i32,
    state: JobState,
    cmdline: Seq<char>,
)
    requires
        0 <= i < t.slots.len(),
        t.max_jid() < t.next_jid < MAX_JOBID,
    ensures
        t.added(i, pid, state, cmdline).max_jid() < t.added(i, pid, state, cmdline).next_jid
            <= MAX_JOBID,
{
    lemma_unseated(t);
    lemma_max_jid_update(
        t.cleared_for(state).slots,
        i,
        Some(JobView { pid: pid, jid: t.next_jid, state: state, cmdline: cmdline }),
        t.slots.len() as int,
    );
}

/// One change of a job table: a job is added or the job with a process
/// id is removed.
pub ghost enum TableOp {
    Add { pid: i32, state: JobState, cmdline: Seq<char> },
    Remove { pid: i32 },
}

/// The table after one change, as `addjob` and `deletejob` make it.
pub open spec fn applied(t: JobListView, op: TableOp) -> JobListView {
    match op {
        TableOp::Add { pid, state, cmdline } => match t.first(Probe::Free) {
            Some(i) => t.added(i, pid, state, cmdline),
            None => t,
        },
        TableOp::Remove { pid } => match t.first(Probe::Pid(pid)) {
            Some(i) => t.removed(i),
            None => t,
        },
    }
}

/// The table after a sequence of changes.
pub open spec fn applied_all(t: JobListView, ops: Seq<TableOp>) -> JobListView
    decreases ops.len(),
{
    if ops.len() == 0 {
        t
    } else {
        applied(applied_all(t, ops.drop_last()), ops.last())
    }
}

/// Whether a change meets a table in which it cannot bring two jobs under
/// one id: every removal does; an addition does where the table is full,
/// or where no live job has the new process id or the id at which the
/// counter stands.
pub open spec fn keeps_ids_apart(t: JobListView, op: TableOp) -> bool {
    match op {
        TableOp::Add { pid, state, cmdline } => t.first(Probe::Free) is Some ==> t.lacks(
            Probe::Pid(pid),
        ) && t.lacks(Probe::Jid(t.next_jid)),
        TableOp::Remove { pid } => true,
    }
}

/// For every sequence of additions and removals, each of which meets the
/// table in a state in which it keeps ids apart, no two live jobs share a
/// process id or a job id at the end.
pub proof fn lemma_ids_stay_distinct(t: JobListView, ops: Seq<TableOp>)
    requires
        t.pids_distinct(),
        t.jids_distinct(),
        forall|k: int|
            0 <= k < ops.len() ==> keeps_ids_apart(applied_all(t, ops.take(k)), #[trigger] ops[k]),
    ensures
        applied_all(t, ops).pids_distinct(),
        applied_all(t, ops).jids_distinct(),
    decreases ops.len(),
{
    if ops.len() > 0 {
        let before = ops.drop_last();
        assert forall|k: int| 0 <= k < before.len() implies keeps_ids_apart(
            applied_all(t, before.take(k)),
            #[trigger] before[k],
        ) by {
            assert(before.take(k) =~= ops.take(k));
            assert(before[k] == ops[k]);
        }
        lemma_ids_stay_distinct(t, before);
        let s = applied_all(t, before);
        assert(ops.take(ops.len() - 1) =~= before);
        assert(keeps_ids_apart(s, ops[ops.len() - 1]));
        match ops.last() {
            TableOp::Add { pid, state, cmdline } => {
                lemma_first_found(s, Probe::Free);
                if s.first(Probe::Free) is Some {
                    let i = s.first(Probe::Free)->0;
                    lemma_added_pids_distinct(s, i, pid, state, cmdline);
                    lemma_added_jids_distinct(s, i, pid, state, cmdline);
                }
            },
            TableOp::Remove { pid } => {
                lemma_first_found(s, Probe::Pid(pid));
                if s.first(Probe::Pid(pid)) is Some {
                    lemma_removed_distinct(s, s.first(Probe::Pid(pid))->0);
                }
            },
        }
    }
}

/// Whether an addition meets a table that has room for the job: the
/// process id is new, and the counter has not reached the largest id.
pub open spec fn adds_before_wrap(t: JobListView, op: TableOp) -> bool {
    match op {
        TableOp::Add { pid, state, cmdline } => t.first(Probe::Free) is Some ==> t.lacks(
            Probe::Pid(pid),
        ) && t.next_jid < MAX_JOBID,
        TableOp::Remove { pid } => true,
    }
}

/// Job ids can meet only after the counter has gone round: in a table
/// whose counter stands above every live job id, and for every sequence
/// of removals and of additions of new process ids that are made before
/// the counter has reached the largest id, no two live jobs share a
/// process id or a job id at the end.
pub proof fn lemma_ids_stay_distinct_before_wrap(t: JobListView, ops: Seq<TableOp>)
    requires
        t.pids_distinct(),
        t.jids_distinct(),
        t.max_jid() < t.next_jid <= MAX_JOBID,
        forall|k: int|
            0 <= k < ops.len() ==> adds_before_wrap(applied_all(t, ops.take(k)), #[trigger] ops[k]),
    ensures
        applied_all(t, ops).pids_distinct(),
        applied_all(t, ops).jids_distinct(),
        applied_all(t, ops).max_jid() < applied_all(t, ops).next_jid <= MAX_JOBID,
    decreases ops.len(),
{
    if ops.len() > 0 {
        let before = ops.drop_last();
        assert forall|k: int| 0 <= k < before.len() implies adds_before_wrap(
            applied_all(t, before.take(k)),
            #[trigger] before[k],
        ) by {
            assert(before.take(k) =~= ops.take(k));
            assert(before[k] == ops[k]);
        }
        lemma_ids_stay_distinct_before_wrap(t, before);
        let s = applied_all(t, before);
        assert(ops.take(ops.len() - 1) =~= before);
        assert(adds_before_wrap(s, ops[ops.len() - 1]));
        match ops.last() {
            TableOp::Add { pid, state, cmdline } => {
                lemma_first_found(s, Probe::Free);
                if s.first(Probe::Free) is Some {
                    let i = s.first(Probe::Free)->0;
                    lemma_counter_fresh(s);
                    lemma_added_pids_distinct(s, i, pid, state, cmdline);
                    lemma_added_jids_distinct(s, i, pid, state, cmdline);
                    lemma_added_counter_above(s, i, pid, state, cmdline);
                }
            },
            TableOp::Remove { pid } => {
                lemma_first_found(s, Probe::Pid(pid));
                if s.first(Probe::Pid(pid)) is Some {
                    let i = s.first(Probe::Pid(pid))->0;
                    lemma_removed_distinct(s, i);
                    lemma_removed_counter_above(s, i);
                }
            },
        }
    }
}

/// After the job with the largest id was added the counter stands at 1
/// again, so that the job added next gets the id 1: the ids of the live
/// jobs are then still distinct exactly where no live job has the id 1.
pub proof fn lemma_counter_wraps(
    t: JobListView,
    i: int,
    pid: i32,
    state: JobState,
    cmdline: Seq<char>,
    k: int,
    next_pid: i32,
    next_state: JobState,
    next_cmdline: Seq<char>,
)
    requires
        t.is_first(i, Probe::Free),
        t.next_jid == MAX_JOBID,
        t.added(i, pid, state, cmdline).is_first(k, Probe::Free),
    ensures
        t.added(i, pid, state, cmdline).next_jid == 1,
        t.added(i, pid, state, cmdline).added(k, next_pid, next_state, next_cmdline).slots[k]->0.jid
            == 1,
        t.added(i, pid, state, cmdline).added(
            k,
            next_pid,
            next_state,
            next_cmdline,
        ).jids_distinct() <==> t.added(i, pid, state, cmdline).jids_distinct() && t.added(
            i,
            pid,
            state,
            cmdline,
        ).lacks(Probe::Jid(1)),
{
    lemma_added_jids_distinct(t.added(i, pid, state, cmdline), k, next_pid, next_state, next_cmdline);
}

/// Storing a job never brings a second job into the foreground. A job
/// stored in the foreground is the only one there afterwards; a job
/// stored in another state leaves in the foreground what was there.
pub proof fn lemma_added_foreground(
    t: JobListView,
    i: int,
    pid: i32,
    state: JobState,
    cmdline: Seq<char>,
)
    requires
        t.is_first(i, Probe::Free),
    ensures
        t.at_most_one_fg() ==> t.added(i, pid, state, cmdline).at_most_one_fg(),
        state == JobState::FG ==> t.added(i, pid, state, cmdline).at_most_one_fg() && t.added(
            i,
            pid,
            state,
            cmdline,
        ).only_foreground(pid) && t.added(i, pid, state, cmdline).first(Probe::Foreground) == Some(
            i,
        ),
        state != JobState::FG ==> (t.added(i, pid, state, cmdline).at_most_one_fg()
            <==> t.at_most_one_fg()),
        state != JobState::FG && t.lacks(Probe::Foreground) ==> t.added(
            i,
            pid,
            state,
            cmdline,
        ).lacks(Probe::Foreground),
        forall|other: i32|
            state != JobState::FG && t.only_foreground(other) ==> t.added(
                i,
                pid,
                state,
                cmdline,
            ).only_foreground(other),
{
    let u = t.added(i, pid, state, cmdline);
    let c = t.cleared_for(state);
    let fg = Probe::Foreground;
    lemma_unseated(t);
    assert(forall|k: int| 0 <= k < t.slots.len() && k != i ==> u.slots[k] == c.slots[k]);
    if state == JobState::FG {
        assert(slot_matches(u.slots[i], fg));
        assert forall|k: int| 0 <= k < u.slots.len() && k != i implies !slot_matches(
            #[trigger] u.slots[k],
            fg,
        ) by {
            assert(!slot_matches(c.slots[k], fg));
        }
        assert(u.is_first(i, fg));
        lemma_first_is(u, i, fg);
    } else {
        assert(!slot_matches(u.slots[i], fg));
        if t.at_most_one_fg() {
            assert forall|a: int, b: int|
                0 <= a < u.slots.len() && 0 <= b < u.slots.len() && slot_matches(
                    #[trigger] u.slots[a],
                    fg,
                ) && slot_matches(#[trigger] u.slots[b], fg) implies a == b by {
                assert(slot_matches(t.slots[a], fg) && slot_matches(t.slots[b], fg));
            }
        }
        if u.at_most_one_fg() {
            assert forall|a: int, b: int|
                0 <= a < t.slots.len() && 0 <= b < t.slots.len() && slot_matches(
                    #[trigger] t.slots[a],
                    fg,
                ) && slot_matches(#[trigger] t.slots[b], fg) implies a == b by {
                assert(slot_matches(u.slots[a], fg) && slot_matches(u.slots[b], fg));
            }
        }
        if t.lacks(fg) {
            assert forall|k: int| 0 <= k < u.slots.len() implies !slot_matches(
                #[trigger] u.slots[k],
                fg,
            ) by {
                if k != i {
                    assert(!slot_matches(t.slots[k], fg));
                }
            }
        }
        assert forall|other: i32| t.only_foreground(other) implies u.only_foreground(other) by {
            assert forall|k: int|
                0 <= k < u.slots.len() && slot_matches(
                    #[trigger] u.slots[k],
                    fg,
                ) implies u.slots[k]->0.pid == other by {
                assert(slot_matches(t.slots[k], fg));
            }
        }
    }
}

/// Giving a job a state never brings a second job into the foreground. A
/// job brought to the foreground is the only one there afterwards; a job
/// given another state leaves in the foreground what else was there. The
/// ids of all jobs stay as they were.
pub proof fn lemma_moved_to(t: JobListView, i: int, state: JobState)
    requires
        0 <= i < t.slots.len(),
        t.slots[i] is Some,
    ensures
        t.at_most_one_fg() ==> t.moved_to(i, state).at_most_one_fg(),
        state == JobState::FG ==> t.moved_to(i, state).at_most_one_fg() && t.moved_to(
            i,
            state,
        ).only_foreground(t.slots[i]->0.pid) && t.moved_to(i, state).first(Probe::Foreground)
            == Some(i),
        state != JobState::FG && t.lacks(Probe::Foreground) ==> t.moved_to(i, state).lacks(
            Probe::Foreground,
        ),
        forall|other: i32|
            state != JobState::FG && t.only_foreground(other) ==> t.moved_to(
                i,
                state,
            ).only_foreground(other),
        t.pids_distinct() ==> t.moved_to(i, state).pids_distinct(),
        t.jids_distinct() ==> t.moved_to(i, state).jids_distinct(),
        t.moved_to(i, state).slots.len() == t.slots.len(),
        t.moved_to(i, state).next_jid == t.next_jid,
        forall|k: int|
            0 <= k < t.slots.len() ==> ((#[trigger] t.moved_to(i, state).slots[k]) is Some
                <==> t.slots[k] is Some) && (t.slots[k] is Some ==> t.moved_to(
                i,
                state,
            ).slots[k]->0.pid == t.slots[k]->0.pid && t.moved_to(i, state).slots[k]->0.jid
                == t.slots[k]->0.jid && t.moved_to(i, state).slots[k]->0.cmdline
                == t.slots[k]->0.cmdline),
{
    let c = t.cleared_for(state);
    let u = t.moved_to(i, state);
    let fg = Probe::Foreground;
    lemma_unseated(t);
    assert(forall|k: int| 0 <= k < t.slots.len() && k != i ==> u.slots[k] == c.slots[k]);
    assert(u.slots[i] == Some(JobView { state: state, ..c.slots[i]->0 }));
    assert forall|k: int| 0 <= k < t.slots.len() implies ((#[trigger] u.slots[k]) is Some
        <==> t.slots[k] is Some) && (t.slots[k] is Some ==> u.slots[k]->0.pid == t.slots[k]->0.pid
        && u.slots[k]->0.jid == t.slots[k]->0.jid && u.slots[k]->0.cmdline
        == t.slots[k]->0.cmdline) by {
        assert(c.slots[k] == if state == JobState::FG {
            unseated_slot(t.slots[k])
        } else {
            t.slots[k]
        });
    }
    if t.pids_distinct() {
        assert forall|a: int, b: int|
            0 <= a < u.slots.len() && 0 <= b < u.slots.len() && (#[trigger] u.slots[a]) is Some && (
            #[trigger] u.slots[b]) is Some && u.slots[a]->0.pid == u.slots[b]->0.pid implies a
            == b by {
            assert(t.slots[a] is Some && t.slots[b] is Some);
            assert(t.slots[a]->0.pid == t.slots[b]->0.pid);
        }
    }
    if t.jids_distinct() {
        assert forall|a: int, b: int|
            0 <= a < u.slots.len() && 0 <= b < u.slots.len() && (#[trigger] u.slots[a]) is Some && (
            #[trigger] u.slots[b]) is Some && u.slots[a]->0.jid == u.slots[b]->0.jid implies a
            == b by {
            assert(t.slots[a] is Some && t.slots[b] is Some);
            assert(t.slots[a]->0.jid == t.slots[b]->0.jid);
        }
    }
    if state == JobState::FG {
        assert(slot_matches(u.slots[i], fg));
        assert forall|k: int| 0 <= k < u.slots.len() && k != i implies !slot_matches(
            #[trigger] u.slots[k],
            fg,
        ) by {
            assert(!slot_matches(c.slots[k], fg));
        }
        assert(u.is_first(i, fg));
        lemma_first_is(u, i, fg);
    } else {
        assert(!slot_matches(u.slots[i], fg));
        if t.at_most_one_fg() {
            assert forall|a: int, b: int|
                0 <= a < u.slots.len() && 0 <= b < u.slots.len() && slot_matches(
                    #[trigger] u.slots[a],
                    fg,
                ) && slot_matches(#[trigger] u.slots[b], fg) implies a == b by {
                assert(slot_matches(t.slots[a], fg) && slot_matches(t.slots[b], fg));
            }
        }
        if t.lacks(fg) {
            assert forall|k: int| 0 <= k < u.slots.len() implies !slot_matches(
                #[trigger] u.slots[k],
                fg,
            ) by {
                if k != i {
                    assert(!slot_matches(t.slots[k], fg));
                }
            }
        }
        assert forall|other: i32| t.only_foreground(other) implies u.only_foreground(other) by {
            assert forall|k: int|
                0 <= k < u.slots.len() && slot_matches(
                    #[trigger] u.slots[k],
                    fg,
                ) implies u.slots[k]->0.pid == other by {
                assert(slot_matches(t.slots[k], fg));
            }
        }
    }
}

/// Clearing a slot brings no job into the foreground.
pub proof fn lemma_removed_foreground(t: JobListView, i: int, pid: i32)
    requires
        0 <= i < t.slots.len(),
    ensures
        t.at_most_one_fg() ==> t.removed(i).at_most_one_fg(),
        t.lacks(Probe::Foreground) ==> t.removed(i).lacks(Probe::Foreground),
        t.only_foreground(pid) ==> t.removed(i).only_foreground(pid),
{
    let u = t.removed(i);
    let fg = Probe::Foreground;
    assert(forall|k: int| 0 <= k < t.slots.len() && k != i ==> u.slots[k] == t.slots[k]);
    if t.at_most_one_fg() {
        assert forall|a: int, b: int|
            0 <= a < u.slots.len() && 0 <= b < u.slots.len() && slot_matches(
                #[trigger] u.slots[a],
                fg,
            ) && slot_matches(#[trigger] u.slots[b], fg) implies a == b by {
            assert(slot_matches(t.slots[a], fg) && slot_matches(t.slots[b], fg));
        }
    }
    if t.lacks(fg) {
        assert forall|k: int| 0 <= k < u.slots.len() implies !slot_matches(
            #[trigger] u.slots[k],
            fg,
        ) by {
            if k != i {
                assert(!slot_matches(t.slots[k], fg));
            }
        }
    }
    if t.only_foreground(pid) {
        assert forall|k: int|
            0 <= k < u.slots.len() && slot_matches(#[trigger] u.slots[k], fg) implies u.slots[k]->0.pid
            == pid by {
            assert(slot_matches(t.slots[k], fg));
        }
    }
}

/// Replacing a job leaves at most one job in the foreground where the
/// new job is in the foreground only if the old one was, or if no job
/// was.
pub proof fn lemma_with_job_foreground(t: JobListView, i: int, job: JobView)
    requires
        0 <= i < t.slots.len(),
        t.slots[i] is Some,
        t.at_most_one_fg(),
        job.state == JobState::FG ==> t.slots[i]->0.state == JobState::FG || t.lacks(
            Probe::Foreground,
        ),
    ensures
        t.with_job(i, job).at_most_one_fg(),
{
    let u = t.with_job(i, job);
    let fg = Probe::Foreground;
    assert(forall|k: int| 0 <= k < t.slots.len() && k != i ==> u.slots[k] == t.slots[k]);
    assert forall|a: int, b: int|
        0 <= a < u.slots.len() && 0 <= b < u.slots.len() && slot_matches(
            #[trigger] u.slots[a],
            fg,
        ) && slot_matches(#[trigger] u.slots[b], fg) implies a == b by {
        if a != i && b != i {
            assert(slot_matches(t.slots[a], fg) && slot_matches(t.slots[b], fg));
        } else if a != i {
            assert(slot_matches(t.slots[a], fg));
            assert(slot_matches(t.slots[i], fg) || t.lacks(fg));
        } else if b != i {
            assert(slot_matches(t.slots[b], fg));
            assert(slot_matches(t.slots[i], fg) || t.lacks(fg));
        }
    }
}

/// Setting the state of a job to one that is not the foreground brings
/// no job into the foreground. Setting it to the foreground leaves at
/// most one job there exactly where no other job is there.
pub proof fn lemma_with_state_foreground(t: JobListView, i: int, state: JobState, pid: i32)
    requires
        0 <= i < t.slots.len(),
        t.slots[i] is Some,
    ensures
        state != JobState::FG && t.at_most_one_fg() ==> t.with_state(i, state).at_most_one_fg(),
        state != JobState::FG && t.lacks(Probe::Foreground) ==> t.with_state(i, state).lacks(
            Probe::Foreground,
        ),
        state != JobState::FG && t.only_foreground(pid) ==> t.with_state(i, state).only_foreground(
            pid,
        ),
        state == JobState::FG ==> (t.with_state(i, state).at_most_one_fg() <==> forall|k: int|
            0 <= k < t.slots.len() && k != i ==> !slot_matches(
                #[trigger] t.slots[k],
                Probe::Foreground,
            )),
        state == JobState::FG && t.lacks(Probe::Foreground) ==> t.with_state(
            i,
            state,
        ).only_foreground(t.slots[i]->0.pid) && exists|k: int|
            t.with_state(i, state).is_first(k, Probe::Foreground),
{
    let u = t.with_state(i, state);
    let fg = Probe::Foreground;
    assert(forall|k: int| 0 <= k < t.slots.len() && k != i ==> u.slots[k] == t.slots[k]);
    if state != JobState::FG {
        assert(!slot_matches(u.slots[i], fg));
        if t.at_most_one_fg() {
            assert forall|a: int, b: int|
                0 <= a < u.slots.len() && 0 <= b < u.slots.len() && slot_matches(
                    #[trigger] u.slots[a],
                    fg,
                ) && slot_matches(#[trigger] u.slots[b], fg) implies a == b by {
                assert(slot_matches(t.slots[a], fg) && slot_matches(t.slots[b], fg));
            }
        }
        if t.lacks(fg) {
            assert forall|k: int| 0 <= k < u.slots.len() implies !slot_matches(
                #[trigger] u.slots[k],
                fg,
            ) by {
                if k != i {
                    assert(!slot_matches(t.slots[k], fg));
                }
            }
        }
        if t.only_foreground(pid) {
            assert forall|k: int|
                0 <= k < u.slots.len() && slot_matches(
                    #[trigger] u.slots[k],
                    fg,
                ) implies u.slots[k]->0.pid == pid by {
                assert(slot_matches(t.slots[k], fg));
            }
        }
    } else {
        assert(slot_matches(u.slots[i], fg));
        let others_out = forall|k: int|
            0 <= k < t.slots.len() && k != i ==> !slot_matches(#[trigger] t.slots[k], fg);
        if others_out {
            assert forall|a: int, b: int|
                0 <= a < u.slots.len() && 0 <= b < u.slots.len() && slot_matches(
                    #[trigger] u.slots[a],
                    fg,
                ) && slot_matches(#[trigger] u.slots[b], fg) implies a == b by {
                if a != i {
                    assert(!slot_matches(t.slots[a], fg));
                }
                if b != i {
                    assert(!slot_matches(t.slots[b], fg));
                }
            }
        }
        if u.at_most_one_fg() {
            assert forall|k: int| 0 <= k < t.slots.len() && k != i implies !slot_matches(
                #[trigger] t.slots[k],
                fg,
            ) by {
                if slot_matches(t.slots[k], fg) {
                    assert(slot_matches(u.slots[k], fg));
                }
            }
        }
        if t.lacks(fg) {
            assert forall|k: int|
                0 <= k < u.slots.len() && slot_matches(
                    #[trigger] u.slots[k],
                    fg,
                ) implies u.slots[k]->0.pid == t.slots[i]->0.pid by {
                if k != i {
                    assert(!slot_matches(t.slots[k], fg));
                }
            }
            assert(u.is_first(i, fg)) by {
                assert forall|k: int| 0 <= k < i implies !slot_matches(
                    #[trigger] u.slots[k],
                    fg,
                ) by {
                    assert(!slot_matches(t.slots[k], fg));
                }
            }
        }
    }
}

} // verus!
