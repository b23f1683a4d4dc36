//! The shift/log store: invariant-preserving operations over work shifts and
//! their task logs.
//!
//! The store upholds one central invariant: at most one shift is open (has no
//! clock-out) at any time, every closed shift records `time_out - time_in`
//! exactly, and identifiers are store-assigned and strictly increasing.

use vstd::prelude::*;
use vstd::pervasive::VecAdditionalExecFns;
use vstd::seq_lib::lemma_multiset_commutative;
use crate::delta::{delta_report_ok, DeltaReport, print_active_target_delta};
use crate::import::{imported_logs, imported_shifts, rec_logs, rec_ok, rec_view, recs_ok, recs_view, ImportRecord};
use crate::{ts_ok, TrackError, DAY_SECONDS, TS_BOUND};

verus! {

broadcast use {vstd::seq_lib::group_to_multiset_ensures, vstd::seq_lib::group_seq_lib_default};

/// One clock-in-to-clock-out work session.  `time_out` empty means the shift
/// is still open; `time_diff` is the recorded difference once closed.
#[derive(Clone, Copy, Debug, PartialEq)]
pub struct Shift {
    pub id: i64,
    pub time_in: i64,
    pub time_out: Option<i64>,
    pub time_diff: Option<i64>,
}

/// A task entry attributed to a shift, with elapsed minutes (zero where the
/// caller gave none).
#[derive(Clone, Debug, PartialEq)]
pub struct Log {
    pub shift_id: i64,
    pub task: String,
    pub time: i64,
}

/// The mathematical content of a `Log`.
pub struct LogV {
    pub shift_id: int,
    pub task: Seq<char>,
    pub time: int,
}

pub open spec fn log_view(l: Log) -> LogV {
    LogV { shift_id: l.shift_id as int, task: l.task@, time: l.time as int }
}

pub open spec fn logs_view(ls: Seq<Log>) -> Seq<LogV> {
    ls.map_values(|l: Log| log_view(l))
}

/// A shift still open: no clock-out recorded yet.
pub open spec fn is_open(s: Shift) -> bool {
    s.time_out is None
}

/// A single well-formed shift: timestamps in bounds, and the recorded
/// difference exactly `time_out - time_in` once closed.
pub open spec fn shift_wf(s: Shift) -> bool {
    &&& ts_ok(s.time_in as int)
    &&& match s.time_out {
        Some(o) => ts_ok(o as int) && (s.time_diff matches Some(d) && d == o - s.time_in),
        None => s.time_diff is None,
    }
}

/// What the store's invariant asks of a sequence of shift rows and the next
/// identifier to assign: every row well formed, identifiers positive,
/// strictly increasing and below `next_id`, and at most one row open.
pub open spec fn rows_wf(ss: Seq<Shift>, next_id: int) -> bool {
    &&& forall|i: int| 0 <= i < ss.len() ==> shift_wf(#[trigger] ss[i])
    &&& forall|i: int, j: int| 0 <= i < j < ss.len() ==> ss[i].id < ss[j].id
    &&& forall|i: int| 0 <= i < ss.len() ==> 0 < #[trigger] ss[i].id < next_id
    &&& forall|i: int, j: int|
        0 <= i < ss.len() && 0 <= j < ss.len() && is_open(ss[i]) && is_open(ss[j]) ==> i == j
    &&& 1 <= next_id <= i64::MAX
}

/// The closed (completed) shifts among `ss`, in store order.
pub open spec fn closed_shifts(ss: Seq<Shift>) -> Seq<Shift> {
    ss.filter(|s: Shift| !is_open(s))
}

/// The logs that belong to shift `id`, in insertion order, as views.
pub open spec fn shift_logs(ls: Seq<Log>, id: int) -> Seq<LogV> {
    logs_view(ls).filter(|v: LogV| v.shift_id == id)
}

/// How `closed_shifts` grows when one more row is considered.
proof fn lemma_closed_shifts_step(ss: Seq<Shift>, i: int)
    requires
        0 <= i < ss.len(),
    ensures
        closed_shifts(ss.take(i + 1)) == if is_open(ss[i]) {
            closed_shifts(ss.take(i))
        } else {
            closed_shifts(ss.take(i)).push(ss[i])
        },
{
    reveal(Seq::filter);
    assert(ss.take(i + 1).drop_last() =~= ss.take(i));
    assert(ss.take(i + 1).len() == i + 1);
    assert(ss.take(i + 1).last() == ss[i]);
}

/// How `shift_logs` grows when one more row is considered.
proof fn lemma_shift_logs_step(ls: Seq<Log>, id: int, i: int)
    requires
        0 <= i < ls.len(),
    ensures
        shift_logs(ls.take(i + 1), id) == if log_view(ls[i]).shift_id == id {
            shift_logs(ls.take(i), id).push(log_view(ls[i]))
        } else {
            shift_logs(ls.take(i), id)
        },
{
    reveal(Seq::filter);
    assert(logs_view(ls.take(i + 1)).drop_last() =~= logs_view(ls.take(i)));
    assert(logs_view(ls.take(i + 1)).len() == i + 1);
    assert(logs_view(ls.take(i + 1)).last() == log_view(ls[i]));
}

/// The index of the open shift, where one exists.
pub open spec fn active_index(ss: Seq<Shift>) -> int {
    choose|i: int| 0 <= i < ss.len() && is_open(#[trigger] ss[i])
}

/// The shift and log store.  The fields are reachable only through the
/// operations below, which preserve `wf`.
pub struct Store {
    shifts: Vec<Shift>,
    logs: Vec<Log>,
    next_id: i64,
}

impl Store {
    /// The shift rows, in insertion (identifier) order.
    pub closed spec fn shifts_seq(self) -> Seq<Shift> {
        self.shifts@
    }

    /// The log rows, in insertion order.
    pub closed spec fn logs_seq(self) -> Seq<Log> {
        self.logs@
    }

    /// The identifier the next inserted shift receives.
    pub closed spec fn next_id_spec(self) -> int {
        self.next_id as int
    }

    /// The store invariant.
    pub closed spec fn wf(self) -> bool {
        rows_wf(self.shifts@, self.next_id as int)
    }

    /// Some shift is open.
    pub open spec fn spec_is_active(self) -> bool {
        exists|i: int|
            0 <= i < self.shifts_seq().len() && is_open(#[trigger] self.shifts_seq()[i])
    }

    /// A well-formed store's rows satisfy the row invariant; in particular
    /// every closed shift records `time_out - time_in` exactly.
    pub proof fn lemma_store_invariant(self)
        requires
            self.wf(),
        ensures
            rows_wf(self.shifts_seq(), self.next_id_spec()),
    {
    }

    /// Whether a shift is active depends on the shift rows alone, so after a
    /// stop the store stays inactive, and after a start it stays active,
    /// across any operations that leave the shift rows unchanged (logging,
    /// queries) — until the next start or stop.
    pub proof fn lemma_activity_from_shifts(a: Store, b: Store)
        requires
            a.shifts_seq() == b.shifts_seq(),
        ensures
            a.spec_is_active() == b.spec_is_active(),
    {
        if a.spec_is_active() {
            let k = choose|k: int|
                0 <= k < a.shifts_seq().len() && is_open(#[trigger] a.shifts_seq()[k]);
            assert(is_open(b.shifts_seq()[k]));
        }
        if b.spec_is_active() {
            let k = choose|k: int|
                0 <= k < b.shifts_seq().len() && is_open(#[trigger] b.shifts_seq()[k]);
            assert(is_open(a.shifts_seq()[k]));
        }
    }

    /// An empty store.
    pub fn new() -> (s: Store)
        ensures
            s.wf(),
            s.shifts_seq() == Seq::<Shift>::empty(),
            s.logs_seq() == Seq::<Log>::empty(),
            s.next_id_spec() == 1,
            !s.spec_is_active(),
    {
        Store { shifts: Vec::new(), logs: Vec::new(), next_id: 1 }
    }

    /// Rebuild a store from persisted rows, in identifier order, refusing
    /// rows that break the invariant: a broken store is a fatal consistency
    /// error, not something to tolerate silently.
    pub fn from_rows(shifts: Vec<Shift>, logs: Vec<Log>, next_id: i64) -> (r: Result<
        Store,
        TrackError,
    >)
        ensures
            match r {
                Ok(s) => {
                    &&& rows_wf(shifts@, next_id as int)
                    &&& s.wf()
                    &&& s.shifts_seq() == shifts@
                    &&& s.logs_seq() == logs@
                    &&& s.next_id_spec() == next_id
                },
                Err(e) => e == TrackError::Storage && !rows_wf(shifts@, next_id as int),
            },
    {
        if next_id < 1 {
            return Err(TrackError::Storage);
        }
        let n = shifts.len();
        let mut i: usize = 0;
        let mut open_seen = false;
        while i < n
            invariant
                n == shifts@.len(),
                0 <= i <= n,
                1 <= next_id,
                forall|k: int| 0 <= k < i ==> shift_wf(#[trigger] shifts@[k]),
                forall|k: int, l: int| 0 <= k < l < i ==> shifts@[k].id < shifts@[l].id,
                forall|k: int| 0 <= k < i ==> 0 < #[trigger] shifts@[k].id < next_id,
                open_seen == exists|k: int| 0 <= k < i && is_open(#[trigger] shifts@[k]),
                forall|k: int, l: int|
                    0 <= k < i && 0 <= l < i && is_open(shifts@[k]) && is_open(shifts@[l]) ==> k
                        == l,
            decreases n - i,
        {
            let sh = shifts[i];
            if sh.id <= 0 || sh.id >= next_id {
                return Err(TrackError::Storage);
            }
            if i > 0 && shifts[i - 1].id >= sh.id {
                return Err(TrackError::Storage);
            }
            if !(-TS_BOUND <= sh.time_in && sh.time_in <= TS_BOUND) {
                return Err(TrackError::Storage);
            }
            match sh.time_out {
                Some(o) => {
                    if !(-TS_BOUND <= o && o <= TS_BOUND) {
                        return Err(TrackError::Storage);
                    }
                    match sh.time_diff {
                        Some(d) => {
                            if d != o - sh.time_in {
                                return Err(TrackError::Storage);
                            }
                        },
                        None => {
                            return Err(TrackError::Storage);
                        },
                    }
                },
                None => {
                    if sh.time_diff.is_some() {
                        return Err(TrackError::Storage);
                    }
                    if open_seen {
                        return Err(TrackError::Storage);
                    }
                    open_seen = true;
                },
            }
            proof {
                assert forall|k: int, l: int| 0 <= k < l < i + 1 implies shifts@[k].id
                    < shifts@[l].id by {
                    if l < i {
                    } else if k == i - 1 {
                    } else {
                        assert(shifts@[k].id < shifts@[i - 1].id);
                    }
                }
            }
            i += 1;
        }
        Ok(Store { shifts, logs, next_id })
    }

    /// True exactly when a shift is open.  With the invariant, "some open
    /// shift" and "exactly one open shift" coincide.
    pub fn is_shift_active(&self) -> (b: bool)
        ensures
            b == self.spec_is_active(),
    {
        let n = self.shifts.len();
        let mut i: usize = 0;
        while i < n
            invariant
                n == self.shifts@.len(),
                0 <= i <= n,
                forall|k: int| 0 <= k < i ==> !is_open(#[trigger] self.shifts@[k]),
            decreases n - i,
        {
            if self.shifts[i].time_out.is_none() {
                proof {
                    assert(is_open(self.shifts_seq()[i as int]));
                }
                return true;
            }
            i += 1;
        }
        false
    }

    fn find_active(&self) -> (r: Option<usize>)
        ensures
            match r {
                Some(i) => i < self.shifts_seq().len() && is_open(self.shifts_seq()[i as int]),
                None => !self.spec_is_active(),
            },
    {
        let n = self.shifts.len();
        let mut i: usize = 0;
        while i < n
            invariant
                n == self.shifts@.len(),
                0 <= i <= n,
                forall|k: int| 0 <= k < i ==> !is_open(#[trigger] self.shifts@[k]),
            decreases n - i,
        {
            if self.shifts[i].time_out.is_none() {
                return Some(i);
            }
            i += 1;
        }
        None
    }

    /// Open a new shift at `time_in`.  Refused with `Conflict` while another
    /// shift is active; `Storage` only when identifiers are exhausted.
    pub fn start_shift(&mut self, time_in: i64) -> (r: Result<Shift, TrackError>)
        requires
            old(self).wf(),
            ts_ok(time_in as int),
        ensures
            final(self).wf(),
            final(self).logs_seq() == old(self).logs_seq(),
            match r {
                Ok(sh) => {
                    &&& !old(self).spec_is_active()
                    &&& sh.time_in == time_in
                    &&& sh.time_out is None
                    &&& sh.time_diff is None
                    &&& sh.id as int == old(self).next_id_spec()
                    &&& final(self).shifts_seq() == old(self).shifts_seq().push(sh)
                    &&& final(self).next_id_spec() == old(self).next_id_spec() + 1
                    &&& final(self).spec_is_active()
                },
                Err(TrackError::Conflict) => old(self).spec_is_active() && *final(self)
                    == *old(self),
                Err(TrackError::Storage) => {
                    &&& !old(self).spec_is_active()
                    &&& old(self).next_id_spec() == i64::MAX
                    &&& *final(self) == *old(self)
                },
                Err(_) => false,
            },
    {
        if self.is_shift_active() {
            return Err(TrackError::Conflict);
        }
        if self.next_id == i64::MAX {
            return Err(TrackError::Storage);
        }
        let sh = Shift { id: self.next_id, time_in, time_out: None, time_diff: None };
        self.next_id = self.next_id + 1;
        self.shifts.push(sh);
        proof {
            let ss = self.shifts@;
            let oss = old(self).shifts@;
            let m = oss.len() as int;
            assert(is_open(ss[m]));
            assert(is_open(self.shifts_seq()[m]));
            assert forall|k: int| 0 <= k < m implies !is_open(#[trigger] ss[k]) by {
                assert(ss[k] == oss[k]);
                if is_open(oss[k]) {
                    assert(is_open(old(self).shifts_seq()[k]));
                }
            }
            assert forall|k: int| 0 <= k < ss.len() implies shift_wf(#[trigger] ss[k]) by {
                if k < m {
                    assert(ss[k] == oss[k]);
                }
            }
            assert forall|k: int| 0 <= k < ss.len() implies 0 < #[trigger] ss[k].id
                < self.next_id by {
                if k < m {
                    assert(ss[k] == oss[k]);
                }
            }
            assert forall|k: int, l: int| 0 <= k < l < ss.len() implies ss[k].id < ss[l].id by {
                if l < m {
                    assert(ss[k] == oss[k] && ss[l] == oss[l]);
                } else {
                    assert(ss[k] == oss[k]);
                    assert(oss[k].id < old(self).next_id);
                }
            }
            assert(rows_wf(ss, self.next_id as int));
        }
        Ok(sh)
    }

    /// Close the active shift at `time_out`, recording the worked difference.
    /// Refused with `NotFound` when no shift is active.
    pub fn stop_shift(&mut self, time_out: i64) -> (r: Result<Shift, TrackError>)
        requires
            old(self).wf(),
            ts_ok(time_out as int),
        ensures
            final(self).wf(),
            final(self).logs_seq() == old(self).logs_seq(),
            final(self).next_id_spec() == old(self).next_id_spec(),
            match r {
                Ok(sh) => {
                    let i = active_index(old(self).shifts_seq());
                    let prev = old(self).shifts_seq()[i];
                    &&& old(self).spec_is_active()
                    &&& sh.id == prev.id
                    &&& sh.time_in == prev.time_in
                    &&& sh.time_out == Some(time_out)
                    &&& (sh.time_diff matches Some(d) && d == time_out - prev.time_in)
                    &&& final(self).shifts_seq() == old(self).shifts_seq().update(i, sh)
                    &&& !final(self).spec_is_active()
                },
                Err(e) => e == TrackError::NotFound && !old(self).spec_is_active() && *final(self)
                    == *old(self),
            },
    {
        match self.find_active() {
            None => Err(TrackError::NotFound),
            Some(idx) => {
                let prev = self.shifts[idx];
                let diff = time_out - prev.time_in;
                let sh = Shift {
                    id: prev.id,
                    time_in: prev.time_in,
                    time_out: Some(time_out),
                    time_diff: Some(diff),
                };
                proof {
                    let ss = self.shifts@;
                    let i = active_index(ss);
                    assert(0 <= i < ss.len() && is_open(ss[i]));
                    assert(i == idx as int);
                }
                self.shifts.set(idx, sh);
                proof {
                    let ss = self.shifts@;
                    assert forall|k: int| 0 <= k < ss.len() implies !is_open(
                        #[trigger] ss[k],
                    ) by {
                        if k != idx as int {
                            assert(ss[k] == old(self).shifts@[k]);
                        }
                    }
                }
                Ok(sh)
            },
        }
    }

    /// The open shift.  `NotFound` when none is active.
    pub fn get_active_shift(&self) -> (r: Result<Shift, TrackError>)
        requires
            self.wf(),
        ensures
            match r {
                Ok(sh) => self.spec_is_active() && sh == self.shifts_seq()[active_index(
                    self.shifts_seq(),
                )],
                Err(e) => e == TrackError::NotFound && !self.spec_is_active(),
            },
    {
        match self.find_active() {
            None => Err(TrackError::NotFound),
            Some(idx) => {
                proof {
                    let ss = self.shifts@;
                    let i = active_index(ss);
                    assert(0 <= i < ss.len() && is_open(ss[i]));
                    assert(i == idx as int);
                }
                Ok(self.shifts[idx])
            },
        }
    }

    /// Append a log row unconditionally; the returned row equals what was
    /// stored.
    pub fn add_log(&mut self, shift_id: i64, task: String, minutes: i64) -> (lg: Log)
        ensures
            final(self).shifts_seq() == old(self).shifts_seq(),
            final(self).next_id_spec() == old(self).next_id_spec(),
            final(self).wf() == old(self).wf(),
            log_view(lg) == (LogV {
                shift_id: shift_id as int,
                task: task@,
                time: minutes as int,
            }),
            logs_view(final(self).logs_seq()) == logs_view(old(self).logs_seq()).push(
                log_view(lg),
            ),
    {
        let stored = Log { shift_id, task, time: minutes };
        let lg = clone_log(&stored);
        self.logs.push(stored);
        proof {
            assert(logs_view(self.logs@) =~= logs_view(old(self).logs@).push(log_view(lg)));
        }
        lg
    }

    /// Log a task against the active shift.  `NotFound` when none is active.
    pub fn log_task(&mut self, task: String, minutes: i64) -> (r: Result<Log, TrackError>)
        requires
            old(self).wf(),
        ensures
            final(self).wf(),
            final(self).shifts_seq() == old(self).shifts_seq(),
            final(self).next_id_spec() == old(self).next_id_spec(),
            match r {
                Ok(lg) => {
                    let sh = old(self).shifts_seq()[active_index(old(self).shifts_seq())];
                    &&& old(self).spec_is_active()
                    &&& log_view(lg) == (LogV {
                        shift_id: sh.id as int,
                        task: task@,
                        time: minutes as int,
                    })
                    &&& logs_view(final(self).logs_seq()) == logs_view(
                        old(self).logs_seq(),
                    ).push(log_view(lg))
                },
                Err(e) => e == TrackError::NotFound && !old(self).spec_is_active() && *final(self)
                    == *old(self),
            },
    {
        let sh = match self.get_active_shift() {
            Ok(sh) => sh,
            Err(e) => {
                return Err(e);
            },
        };
        Ok(self.add_log(sh.id, task, minutes))
    }

    /// Aggregate surplus or deficit across history.  Reserved: the
    /// accumulation rule is not yet defined, so this is an explicit,
    /// always-present zero.
    pub fn get_balance(&self) -> (r: i64)
        ensures
            r == 0,
    {
        0
    }

    /// The logs of shift `id`, in insertion order.
    pub fn get_shift_logs(&self, id: i64) -> (r: Vec<Log>)
        ensures
            logs_view(r@) == shift_logs(self.logs_seq(), id as int),
    {
        let n = self.logs.len();
        let mut acc: Vec<Log> = Vec::new();
        let mut i: usize = 0;
        while i < n
            invariant
                n == self.logs@.len(),
                0 <= i <= n,
                logs_view(acc@) == shift_logs(self.logs@.take(i as int), id as int),
            decreases n - i,
        {
            let ghost pre = logs_view(acc@);
            let l = &self.logs[i];
            proof {
                lemma_shift_logs_step(self.logs@, id as int, i as int);
            }
            if l.shift_id == id {
                let c = clone_log(l);
                acc.push(c);
                proof {
                    assert(logs_view(acc@) =~= pre.push(log_view(self.logs@[i as int])));
                }
            }
            i += 1;
        }
        proof {
            assert(self.logs@.take(n as int) =~= self.logs@);
        }
        acc
    }

    /// The most recent completed shifts: closed shifts only, ordered by
    /// `time_in` descending, at most `n` of them.
    pub fn get_completed_shift_list(&self, n: i64) -> (r: Vec<Shift>)
        requires
            0 <= n,
        ensures
            ({
                let closed = closed_shifts(self.shifts_seq());
                let sorted = sort_desc(closed);
                let k = if n as int <= closed.len() {
                    n as int
                } else {
                    closed.len() as int
                };
                &&& r@ == sorted.take(k)
                &&& r@.len() == k
                &&& sorted_desc(r@)
                &&& forall|i: int| 0 <= i < r@.len() ==> !is_open(#[trigger] r@[i])
            }),
    {
        let m = self.shifts.len();
        let mut sorted: Vec<Shift> = Vec::new();
        let mut i: usize = 0;
        while i < m
            invariant
                m == self.shifts@.len(),
                0 <= i <= m,
                sorted@ == sort_desc(closed_shifts(self.shifts@.take(i as int))),
            decreases m - i,
        {
            let ghost pre_closed = closed_shifts(self.shifts@.take(i as int));
            let sh = self.shifts[i];
            proof {
                lemma_closed_shifts_step(self.shifts@, i as int);
            }
            if sh.time_out.is_some() {
                let mut p: usize = 0;
                let sl = sorted.len();
                while p < sl && sorted[p].time_in > sh.time_in
                    invariant
                        sl == sorted@.len(),
                        0 <= p <= sl,
                        forall|k: int| 0 <= k < p ==> sorted@[k].time_in > sh.time_in,
                    decreases sl - p,
                {
                    p += 1;
                }
                let ghost base = sorted@;
                proof {
                    lemma_insert_desc_at(sh, base, p as int);
                }
                sorted.insert(p, sh);
                proof {
                    assert(sorted@ =~= base.take(p as int) + seq![sh] + base.skip(p as int));
                    assert(sorted@ == insert_desc(sh, base));
                    assert(closed_shifts(self.shifts@.take(i as int + 1)) == pre_closed.push(
                        sh,
                    ));
                    assert(pre_closed.push(sh).drop_last() =~= pre_closed);
                    assert(pre_closed.push(sh).len() > 0);
                    assert(pre_closed.push(sh).last() == sh);
                    assert(sort_desc(pre_closed.push(sh)) == insert_desc(
                        sh,
                        sort_desc(pre_closed),
                    ));
                }
            }
            i += 1;
        }
        proof {
            assert(self.shifts@.take(m as int) =~= self.shifts@);
        }
        let ghost closed = closed_shifts(self.shifts_seq());
        proof {
            lemma_sort_desc_props(closed);
        }
        let len = sorted.len();
        let keep: usize = if (n as u64) < (len as u64) {
            n as usize
        } else {
            len
        };
        sorted.truncate(keep);
        proof {
            assert(sorted@.len() == keep as int);
            assert forall|j: int| 0 <= j < sorted@.len() implies !is_open(
                #[trigger] sorted@[j],
            ) by {
                assert(sorted@[j] == sort_desc(closed)[j]);
                assert(sort_desc(closed).to_multiset().count(sort_desc(closed)[j]) > 0);
                assert(closed.contains(sort_desc(closed)[j]));
            }
            assert forall|a: int, b: int| 0 <= a < b < sorted@.len() implies sorted@[a].time_in
                >= sorted@[b].time_in by {
                assert(sorted@[a] == sort_desc(closed)[a]);
                assert(sorted@[b] == sort_desc(closed)[b]);
            }
        }
        sorted
    }

    /// The current status against the daily target: whether a shift is
    /// active, and if so when it began, when the target would be met, and the
    /// signed remaining delta at clock reading `now`.
    pub fn status(&self, now: i64) -> (r: StatusReport)
        requires
            self.wf(),
            ts_ok(now as int),
        ensures
            r.active == self.spec_is_active(),
            !self.spec_is_active() ==> r.time_in is None && r.expected_out is None
                && r.remaining is None,
            self.spec_is_active() ==> ({
                let t = self.shifts_seq()[active_index(self.shifts_seq())].time_in;
                &&& r.time_in == Some(t)
                &&& (r.expected_out matches Some(e) && e == t + DAY_SECONDS)
                &&& (r.remaining matches Some(d) && delta_report_ok(
                    d,
                    now - t,
                    DAY_SECONDS as int,
                    true,
                ))
            }),
    {
        match self.get_active_shift() {
            Err(_) => StatusReport { active: false, time_in: None, expected_out: None, remaining: None },
            Ok(sh) => {
                proof {
                    let ss = self.shifts_seq();
                    let i = active_index(ss);
                    assert(shift_wf(ss[i]));
                }
                let rem = print_active_target_delta(sh.time_in, now);
                StatusReport {
                    active: true,
                    time_in: Some(sh.time_in),
                    expected_out: Some(sh.time_in + DAY_SECONDS),
                    remaining: Some(rem),
                }
            },
        }
    }

    /// Every shift row, in insertion (identifier) order.
    pub fn all_shifts(&self) -> (r: Vec<Shift>)
        ensures
            r@ == self.shifts_seq(),
    {
        let n = self.shifts.len();
        let mut out: Vec<Shift> = Vec::new();
        let mut i: usize = 0;
        while i < n
            invariant
                n == self.shifts@.len(),
                0 <= i <= n,
                out@ == self.shifts@.take(i as int),
            decreases n - i,
        {
            out.push(self.shifts[i]);
            proof {
                assert(out@ =~= self.shifts@.take(i as int + 1));
            }
            i += 1;
        }
        proof {
            assert(self.shifts@.take(n as int) =~= self.shifts@);
        }
        out
    }

    /// Every log row, in insertion order.
    pub fn all_logs(&self) -> (r: Vec<Log>)
        ensures
            logs_view(r@) == logs_view(self.logs_seq()),
    {
        let n = self.logs.len();
        let mut out: Vec<Log> = Vec::new();
        let mut i: usize = 0;
        while i < n
            invariant
                n == self.logs@.len(),
                0 <= i <= n,
                logs_view(out@) == logs_view(self.logs@.take(i as int)),
            decreases n - i,
        {
            let c = clone_log(&self.logs[i]);
            out.push(c);
            proof {
                assert(logs_view(self.logs@.take(i as int + 1)) =~= logs_view(
                    self.logs@.take(i as int),
                ).push(log_view(self.logs@[i as int])));
                assert(logs_view(out@) =~= logs_view(self.logs@.take(i as int)).push(
                    log_view(self.logs@[i as int]),
                ));
            }
            i += 1;
        }
        proof {
            assert(self.logs@.take(n as int) =~= self.logs@);
        }
        out
    }

    /// The identifier the next inserted shift receives.
    pub fn next_shift_id(&self) -> (r: i64)
        ensures
            r as int == self.next_id_spec(),
    {
        self.next_id
    }

    /// Insert already-closed shifts and their logs for a batch of parsed
    /// records, with consecutive identifiers; all of it or none.  Imported
    /// shifts are historical and may coexist with an active one, so the
    /// active-shift rule is not consulted — and not disturbed.
    pub(crate) fn apply_import(&mut self, recs: &Vec<ImportRecord>) -> (r: Result<
        usize,
        TrackError,
    >)
        requires
            old(self).wf(),
            recs_ok(recs_view(recs@)),
        ensures
            final(self).wf(),
            r is Err ==> *final(self) == *old(self),
            match r {
                Ok(n) => {
                    &&& n == recs@.len()
                    &&& old(self).next_id_spec() + recs@.len() <= i64::MAX
                    &&& final(self).next_id_spec() == old(self).next_id_spec() + n
                    &&& final(self).shifts_seq() == old(self).shifts_seq() + imported_shifts(
                        recs_view(recs@),
                        old(self).next_id_spec(),
                    )
                    &&& logs_view(final(self).logs_seq()) == logs_view(old(self).logs_seq())
                        + imported_logs(recs_view(recs@), old(self).next_id_spec())
                    &&& final(self).spec_is_active() == old(self).spec_is_active()
                },
                Err(e) => e == TrackError::Storage && old(self).next_id_spec() + recs@.len()
                    > i64::MAX,
            },
    {
        let count = recs.len();
        if ((i64::MAX - self.next_id) as u64) < (count as u64) {
            return Err(TrackError::Storage);
        }
        let ghost rv = recs_view(recs@);
        let ghost base = self.next_id as int;
        let ghost oss = self.shifts@;
        let ghost olv = logs_view(self.logs@);
        proof {
            assert(imported_shifts(rv.take(0), base) =~= Seq::<Shift>::empty());
            assert(oss + imported_shifts(rv.take(0), base) =~= oss);
            assert(imported_logs(rv.take(0), base) =~= Seq::<LogV>::empty());
            assert(olv + imported_logs(rv.take(0), base) =~= olv);
        }
        let mut i: usize = 0;
        while i < count
            invariant
                count == recs@.len(),
                rv == recs_view(recs@),
                recs_ok(rv),
                0 <= i <= count,
                base + count <= i64::MAX,
                1 <= base,
                self.next_id as int == base + i,
                self.shifts@ == oss + imported_shifts(rv.take(i as int), base),
                logs_view(self.logs@) == olv + imported_logs(rv.take(i as int), base),
                rows_wf(oss, base),
                rows_wf(self.shifts@, self.next_id as int),
            decreases count - i,
        {
            let ghost g = rv[i as int];
            let rec = &recs[i];
            proof {
                assert(rec_ok(rv[i as int]));
                assert(g == rec_view(recs@[i as int]));
                assert(*rec == recs@[i as int]);
                assert(ts_ok(rec.time_in as int) && ts_ok(rec.time_out as int));
            }
            let id = self.next_id;
            let diff = rec.time_out - rec.time_in;
            let sh = Shift {
                id,
                time_in: rec.time_in,
                time_out: Some(rec.time_out),
                time_diff: Some(diff),
            };
            let ghost pre = self.shifts@;
            self.shifts.push(sh);
            self.next_id = self.next_id + 1;
            proof {
                assert(imported_shifts(rv.take(i as int + 1), base) =~= imported_shifts(
                    rv.take(i as int),
                    base,
                ).push(sh));
                assert(self.shifts@ =~= oss + imported_shifts(rv.take(i as int + 1), base));
                let ss = self.shifts@;
                assert forall|k: int| 0 <= k < ss.len() implies shift_wf(#[trigger] ss[k]) by {
                    if k < pre.len() {
                        assert(ss[k] == pre[k]);
                        assert(shift_wf(pre[k]));
                    } else {
                        assert(ss[k] == sh);
                    }
                }
                assert forall|k: int| 0 <= k < ss.len() implies 0 < #[trigger] ss[k].id
                    < self.next_id by {
                    if k < pre.len() {
                        assert(ss[k] == pre[k]);
                        assert(0 < pre[k].id < base + i);
                    } else {
                        assert(ss[k] == sh);
                    }
                }
                assert forall|k: int, l: int| 0 <= k < l < ss.len() implies ss[k].id
                    < ss[l].id by {
                    if l < pre.len() {
                        assert(ss[k] == pre[k] && ss[l] == pre[l]);
                    } else {
                        assert(ss[k] == pre[k]);
                        assert(pre[k].id < base + i);
                        assert(ss[l] == sh);
                    }
                }
                assert forall|k: int, l: int|
                    0 <= k < ss.len() && 0 <= l < ss.len() && is_open(ss[k]) && is_open(
                        ss[l],
                    ) implies k == l by {
                    assert(!is_open(sh));
                    if k < pre.len() && l < pre.len() {
                        assert(ss[k] == pre[k] && ss[l] == pre[l]);
                    } else if k < pre.len() {
                        assert(ss[l] == sh);
                    } else {
                        assert(ss[k] == sh);
                    }
                }
                assert(rows_wf(ss, self.next_id as int));
            }
            let nt = rec.tasks.len();
            let mut j: usize = 0;
            proof {
                assert(g.tasks == rec.tasks.deep_view());
                assert(rec_logs(g, base + i as int).take(0) =~= Seq::<LogV>::empty());
                assert(logs_view(self.logs@) =~= olv + imported_logs(rv.take(i as int), base)
                    + rec_logs(g, base + i as int).take(0));
            }
            while j < nt
                invariant
                    nt == rec.tasks@.len(),
                    0 <= j <= nt,
                    g.tasks == rec.tasks.deep_view(),
                    g.tasks.len() == nt,
                    id as int == base + i,
                    self.next_id as int == base + i + 1,
                    count == recs@.len(),
                    0 <= i < count,
                    base + count <= i64::MAX,
                    1 <= base,
                    rv == recs_view(recs@),
                    recs_ok(rv),
                    rows_wf(oss, base),
                    rows_wf(self.shifts@, self.next_id as int),
                    self.shifts@ == oss + imported_shifts(rv.take(i as int + 1), base),
                    logs_view(self.logs@) == olv + imported_logs(rv.take(i as int), base)
                        + rec_logs(g, base + i as int).take(j as int),
                decreases nt - j,
            {
                let ghost prelv = logs_view(self.logs@);
                let t = &rec.tasks[j];
                let task = t.clone();
                proof {
                    assert(task@ == rec.tasks@[j as int]@);
                    assert(g.tasks[j as int] == rec.tasks@[j as int]@);
                }
                let lg = Log { shift_id: id, task, time: 0 };
                self.logs.push(lg);
                proof {
                    let lgv = LogV { shift_id: id as int, task: g.tasks[j as int], time: 0 };
                    assert(logs_view(self.logs@) =~= prelv.push(lgv));
                    assert(rec_logs(g, base + i as int).take(j as int + 1) =~= rec_logs(
                        g,
                        base + i as int,
                    ).take(j as int).push(lgv));
                    assert(prelv.push(lgv) =~= olv + imported_logs(rv.take(i as int), base)
                        + rec_logs(g, base + i as int).take(j as int + 1));
                }
                j += 1;
            }
            proof {
                assert(rec_logs(g, base + i as int).take(nt as int) =~= rec_logs(
                    g,
                    base + i as int,
                ));
                assert(imported_logs(rv.take(i as int + 1), base) == imported_logs(
                    rv.take(i as int),
                    base,
                ) + rec_logs(g, base + i as int)) by {
                    assert(rv.take(i as int + 1).drop_last() =~= rv.take(i as int));
                    assert(rv.take(i as int + 1).last() == g);
                    assert(rv.take(i as int + 1).len() == i + 1);
                }
                assert(logs_view(self.logs@) =~= olv + imported_logs(
                    rv.take(i as int + 1),
                    base,
                ));
            }
            i += 1;
        }
        proof {
            assert(rv.take(count as int) =~= rv);
            let oss2 = old(self).shifts_seq();
            let ss = self.shifts_seq();
            if old(self).spec_is_active() {
                let k = choose|k: int| 0 <= k < oss2.len() && is_open(#[trigger] oss2[k]);
                assert(ss[k] == oss2[k]);
                assert(is_open(ss[k]));
                assert(self.spec_is_active());
            }
            if self.spec_is_active() {
                let k = choose|k: int| 0 <= k < ss.len() && is_open(#[trigger] ss[k]);
                if k < oss2.len() {
                    assert(is_open(oss2[k]));
                    assert(old(self).spec_is_active());
                } else {
                    assert(ss[k] == imported_shifts(rv, base)[k - oss2.len()]);
                    assert(ss[k].time_out is Some);
                }
            }
        }
        Ok(count)
    }
}

/// What `status` reports.
pub struct StatusReport {
    pub active: bool,
    pub time_in: Option<i64>,
    pub expected_out: Option<i64>,
    pub remaining: Option<DeltaReport>,
}

fn clone_log(l: &Log) -> (r: Log)
    ensures
        log_view(r) == log_view(*l),
{
    Log { shift_id: l.shift_id, task: l.task.clone(), time: l.time }
}

/// `x` placed into already-descending `s`, before any entry of equal
/// `time_in`.
pub open spec fn insert_desc(x: Shift, s: Seq<Shift>) -> Seq<Shift>
    decreases s.len(),
{
    if s.len() == 0 {
        seq![x]
    } else if x.time_in >= s[0].time_in {
        seq![x] + s
    } else {
        seq![s[0]] + insert_desc(x, s.drop_first())
    }
}

/// `s` sorted by `time_in` descending (insertion sort over the store order).
pub open spec fn sort_desc(s: Seq<Shift>) -> Seq<Shift>
    decreases s.len(),
{
    if s.len() == 0 {
        s
    } else {
        insert_desc(s.last(), sort_desc(s.drop_last()))
    }
}

/// Ordered by `time_in`, most recent first.
pub open spec fn sorted_desc(s: Seq<Shift>) -> bool {
    forall|i: int, j: int| 0 <= i < j < s.len() ==> s[i].time_in >= s[j].time_in
}

/// Inserting is splicing at the first position whose entry is not newer.
proof fn lemma_insert_desc_at(x: Shift, s: Seq<Shift>, p: int)
    requires
        0 <= p <= s.len(),
        forall|k: int| 0 <= k < p ==> s[k].time_in > x.time_in,
        p < s.len() ==> x.time_in >= s[p].time_in,
    ensures
        insert_desc(x, s) == s.take(p) + seq![x] + s.skip(p),
    decreases p,
{
    if p == 0 {
        if s.len() == 0 {
            assert(insert_desc(x, s) =~= s.take(0) + seq![x] + s.skip(0));
        } else {
            assert(x.time_in >= s[0].time_in);
            assert(seq![x] + s =~= s.take(0) + seq![x] + s.skip(0));
        }
    } else {
        assert(s[0].time_in > x.time_in);
        lemma_insert_desc_at(x, s.drop_first(), p - 1);
        assert(seq![s[0]] + (s.drop_first().take(p - 1) + seq![x] + s.drop_first().skip(p - 1))
            =~= s.take(p) + seq![x] + s.skip(p));
    }
}

proof fn lemma_insert_desc_props(x: Shift, s: Seq<Shift>)
    requires
        sorted_desc(s),
    ensures
        insert_desc(x, s).len() == s.len() + 1,
        insert_desc(x, s).to_multiset() == s.to_multiset().insert(x),
        sorted_desc(insert_desc(x, s)),
    decreases s.len(),
{
    let out = insert_desc(x, s);
    if s.len() == 0 {
        assert(out =~= Seq::<Shift>::empty().push(x));
        assert(out.to_multiset() =~= s.to_multiset().insert(x));
    } else if x.time_in >= s[0].time_in {
        assert(out == seq![x] + s);
        lemma_multiset_commutative(seq![x], s);
        assert(seq![x].to_multiset() =~= Seq::<Shift>::empty().push(x).to_multiset()) by {
            assert(seq![x] =~= Seq::<Shift>::empty().push(x));
        }
        assert(out.to_multiset() =~= s.to_multiset().insert(x));
        assert forall|a: int, b: int| 0 <= a < b < out.len() implies out[a].time_in
            >= out[b].time_in by {
            if a > 0 {
                assert(out[a] == s[a - 1] && out[b] == s[b - 1]);
            } else {
                assert(out[b] == s[b - 1]);
                assert(s[0].time_in >= s[b - 1].time_in);
            }
        }
    } else {
        let rest = s.drop_first();
        assert(sorted_desc(rest)) by {
            assert(forall|a: int, b: int|
                0 <= a < b < rest.len() ==> rest[a] == s[a + 1] && rest[b] == s[b + 1]);
        }
        lemma_insert_desc_props(x, rest);
        let sub = insert_desc(x, rest);
        assert(out == seq![s[0]] + sub);
        lemma_multiset_commutative(seq![s[0]], sub);
        lemma_multiset_commutative(seq![s[0]], rest);
        assert(s =~= seq![s[0]] + rest);
        assert(out.to_multiset() =~= s.to_multiset().insert(x)) by {
            assert(sub.to_multiset() == rest.to_multiset().insert(x));
        }
        assert forall|a: int, b: int| 0 <= a < b < out.len() implies out[a].time_in
            >= out[b].time_in by {
            if a > 0 {
                assert(out[a] == sub[a - 1] && out[b] == sub[b - 1]);
            } else {
                assert(out[b] == sub[b - 1]);
                assert(sub.to_multiset().count(sub[b - 1]) > 0);
                assert(sub.contains(sub[b - 1]));
                if sub[b - 1] == x {
                    assert(s[0].time_in >= x.time_in);
                } else {
                    assert(rest.to_multiset().count(sub[b - 1]) > 0);
                    assert(rest.contains(sub[b - 1]));
                    let w = choose|w: int| 0 <= w < rest.len() && rest[w] == sub[b - 1];
                    assert(s[w + 1] == rest[w]);
                    assert(s[0].time_in >= s[w + 1].time_in);
                }
            }
        }
    }
}

/// Sorting keeps length and contents and yields descending order.
proof fn lemma_sort_desc_props(s: Seq<Shift>)
    ensures
        sort_desc(s).len() == s.len(),
        sort_desc(s).to_multiset() == s.to_multiset(),
        sorted_desc(sort_desc(s)),
    decreases s.len(),
{
    if s.len() > 0 {
        lemma_sort_desc_props(s.drop_last());
        lemma_insert_desc_props(s.last(), sort_desc(s.drop_last()));
        assert(s.to_multiset() =~= s.drop_last().to_multiset().insert(s.last())) by {
            assert(s =~= s.drop_last().push(s.last()));
        }
    }
}

} // verus!
