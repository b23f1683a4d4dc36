//! The legacy importer: a line-oriented text format, one closed shift per
//! non-blank line, brought into the store all-or-nothing.
//!
//! Record grammar, fields separated by `" | "`:
//! `<date> | <time_in> - <time_out> | <duration (ignored)> | <task, task, ...>`
//! with `<date>` as `MM/DD/YYYY` and the times as `HHMM`, read at the fixed
//! -06:00 offset.  A blank date skips the line; any malformed line makes the
//! whole import fail with nothing applied.

use vstd::prelude::*;
use vstd::string::*;
use crate::store::{logs_view, LogV, Shift, Store};
use crate::strutil::{spec_split, spec_split_first, split_all, split_first};
use crate::timeparse::{fmt_import, import_input, parse_import_timestamp, parsed_epoch};
use crate::{ts_ok, TrackError, TS_BOUND};

verus! {

/// One parsed import line: both timestamps and the task names.
#[derive(Clone, Debug, PartialEq)]
pub struct ImportRecord {
    pub time_in: i64,
    pub time_out: i64,
    pub tasks: Vec<String>,
}

/// The mathematical content of an import record.
pub struct GRec {
    pub time_in: i64,
    pub time_out: i64,
    pub tasks: Seq<Seq<char>>,
}

pub open spec fn rec_view(r: ImportRecord) -> GRec {
    GRec { time_in: r.time_in, time_out: r.time_out, tasks: r.tasks.deep_view() }
}

pub open spec fn recs_view(rs: Seq<ImportRecord>) -> Seq<GRec> {
    rs.map_values(|r: ImportRecord| rec_view(r))
}

/// A record the store can hold: both timestamps in bounds.
pub open spec fn rec_ok(g: GRec) -> bool {
    ts_ok(g.time_in as int) && ts_ok(g.time_out as int)
}

pub open spec fn recs_ok(rs: Seq<GRec>) -> bool {
    forall|k: int| 0 <= k < rs.len() ==> rec_ok(#[trigger] rs[k])
}

pub open spec fn sep_field() -> Seq<char> {
    " | "@
}

pub open spec fn sep_dash() -> Seq<char> {
    " - "@
}

pub open spec fn sep_comma() -> Seq<char> {
    ", "@
}

/// What one line of the import file means: skipped when its date field is
/// blank, bad when a field is missing, a timestamp fails to parse, or a
/// timestamp is out of the store's range, and otherwise a record with one
/// task per comma-separated name.
pub enum LineOut {
    Skip,
    Bad,
    Rec(GRec),
}

pub open spec fn spec_parse_line(s: Seq<char>) -> LineOut {
    let (date, r1) = spec_split_first(s, sep_field());
    if date.len() == 0 {
        LineOut::Skip
    } else {
        match r1 {
            None => LineOut::Bad,
            Some(rest1) => {
                let (times, r2) = spec_split_first(rest1, sep_field());
                match r2 {
                    None => LineOut::Bad,
                    Some(rest2) => {
                        let (_duration, r3) = spec_split_first(rest2, sep_field());
                        match r3 {
                            None => LineOut::Bad,
                            Some(rest3) => {
                                let (tasks_field, _) = spec_split_first(rest3, sep_field());
                                let (tin, tr) = spec_split_first(times, sep_dash());
                                match tr {
                                    None => LineOut::Bad,
                                    Some(trest) => {
                                        let (tout, _) = spec_split_first(trest, sep_dash());
                                        match (
                                            parsed_epoch(fmt_import(), import_input(tin, date)),
                                            parsed_epoch(fmt_import(), import_input(tout, date)),
                                        ) {
                                            (Some(ti), Some(to)) => if ts_ok(ti as int) && ts_ok(
                                                to as int,
                                            ) {
                                                LineOut::Rec(
                                                    GRec {
                                                        time_in: ti,
                                                        time_out: to,
                                                        tasks: spec_split(
                                                            tasks_field,
                                                            sep_comma(),
                                                        ),
                                                    },
                                                )
                                            } else {
                                                LineOut::Bad
                                            },
                                            _ => LineOut::Bad,
                                        }
                                    },
                                }
                            },
                        }
                    },
                }
            },
        }
    }
}

/// Parse one line.  Nothing for a skipped line, `Parse` for a bad one.
pub fn parse_import_line(line: &str) -> (r: Result<Option<ImportRecord>, TrackError>)
    ensures
        match r {
            Ok(None) => spec_parse_line(line@) is Skip,
            Ok(Some(rec)) => spec_parse_line(line@) == LineOut::Rec(rec_view(rec)) && rec_ok(
                rec_view(rec),
            ),
            Err(e) => e == TrackError::Parse && spec_parse_line(line@) is Bad,
        },
{
    proof {
        reveal_strlit(" | ");
        reveal_strlit(" - ");
        reveal_strlit(", ");
    }
    let (date, r1) = split_first(line, " | ");
    if date.unicode_len() == 0 {
        return Ok(None);
    }
    let rest1 = match r1 {
        Some(x) => x,
        None => {
            return Err(TrackError::Parse);
        },
    };
    let (times, r2) = split_first(rest1, " | ");
    let rest2 = match r2 {
        Some(x) => x,
        None => {
            return Err(TrackError::Parse);
        },
    };
    let (_duration, r3) = split_first(rest2, " | ");
    let rest3 = match r3 {
        Some(x) => x,
        None => {
            return Err(TrackError::Parse);
        },
    };
    let (tasks_field, _r4) = split_first(rest3, " | ");
    let (tin, tr) = split_first(times, " - ");
    let trest = match tr {
        Some(x) => x,
        None => {
            return Err(TrackError::Parse);
        },
    };
    let (tout, _t2) = split_first(trest, " - ");
    let ti = parse_import_timestamp(tin, date);
    let to = parse_import_timestamp(tout, date);
    match (ti, to) {
        (Some(ti), Some(to)) => {
            if -TS_BOUND <= ti && ti <= TS_BOUND && -TS_BOUND <= to && to <= TS_BOUND {
                let tasks = split_all(tasks_field, ", ");
                Ok(Some(ImportRecord { time_in: ti, time_out: to, tasks }))
            } else {
                Err(TrackError::Parse)
            }
        },
        _ => Err(TrackError::Parse),
    }
}

/// What a whole file means: the records of its lines in order, skipping
/// blank-date lines; nothing as soon as any line is bad.
pub open spec fn spec_records(lines: Seq<Seq<char>>) -> Option<Seq<GRec>>
    decreases lines.len(),
{
    if lines.len() == 0 {
        Some(Seq::empty())
    } else {
        match spec_records(lines.drop_last()) {
            None => None,
            Some(rs) => match spec_parse_line(lines.last()) {
                LineOut::Bad => None,
                LineOut::Skip => Some(rs),
                LineOut::Rec(g) => Some(rs.push(g)),
            },
        }
    }
}

/// One bad line anywhere makes the whole file mean nothing.
proof fn lemma_records_bad(lines: Seq<Seq<char>>, i: int)
    requires
        0 <= i < lines.len(),
        spec_parse_line(lines[i]) is Bad,
    ensures
        spec_records(lines) is None,
    decreases lines.len(),
{
    if i < lines.len() - 1 {
        lemma_records_bad(lines.drop_last(), i);
    }
}

/// The shift rows an import inserts: closed shifts with consecutive
/// identifiers from `base`, each recording its exact difference.
pub open spec fn imported_shifts(rs: Seq<GRec>, base: int) -> Seq<Shift> {
    Seq::new(
        rs.len(),
        |i: int|
            (Shift {
                id: (base + i) as i64,
                time_in: rs[i].time_in,
                time_out: Some(rs[i].time_out),
                time_diff: Some((rs[i].time_out - rs[i].time_in) as i64),
            }),
    )
}

/// The log rows one record inserts: one per task, elapsed time zero.
pub open spec fn rec_logs(g: GRec, id: int) -> Seq<LogV> {
    Seq::new(g.tasks.len(), |j: int| (LogV { shift_id: id, task: g.tasks[j], time: 0 }))
}

/// The log rows an import inserts, shift by shift.
pub open spec fn imported_logs(rs: Seq<GRec>, base: int) -> Seq<LogV>
    decreases rs.len(),
{
    if rs.len() == 0 {
        Seq::empty()
    } else {
        imported_logs(rs.drop_last(), base) + rec_logs(rs.last(), base + rs.len() - 1)
    }
}

impl Store {
    /// Bring a whole file of historical lines into the store: every line
    /// parsed and applied inside one all-or-nothing step.  `Parse` leaves the
    /// store untouched when any line is malformed, as does `Storage` when the
    /// store cannot take that many records.
    pub fn import(&mut self, lines: &Vec<String>) -> (r: Result<usize, TrackError>)
        requires
            old(self).wf(),
        ensures
            final(self).wf(),
            r is Err ==> *final(self) == *old(self),
            match r {
                Ok(n) => (spec_records(lines.deep_view()) matches Some(rs) && {
                    &&& n == rs.len()
                    &&& old(self).next_id_spec() + rs.len() <= i64::MAX
                    &&& final(self).next_id_spec() == old(self).next_id_spec() + n
                    &&& final(self).shifts_seq() == old(self).shifts_seq() + imported_shifts(
                        rs,
                        old(self).next_id_spec(),
                    )
                    &&& logs_view(final(self).logs_seq()) == logs_view(old(self).logs_seq())
                        + imported_logs(rs, old(self).next_id_spec())
                    &&& final(self).spec_is_active() == old(self).spec_is_active()
                }),
                Err(TrackError::Parse) => spec_records(lines.deep_view()) is None,
                Err(TrackError::Storage) => (spec_records(lines.deep_view()) matches Some(rs)
                    && old(self).next_id_spec() + rs.len() > i64::MAX),
                Err(_) => false,
            },
    {
        let ghost lv = lines.deep_view();
        let n = lines.len();
        let mut recs: Vec<ImportRecord> = Vec::new();
        let mut i: usize = 0;
        while i < n
            invariant
                *self == *old(self),
                self.wf(),
                n == lines@.len(),
                lv == lines.deep_view(),
                0 <= i <= n,
                spec_records(lv.take(i as int)) == Some(recs_view(recs@)),
                recs_ok(recs_view(recs@)),
            decreases n - i,
        {
            proof {
                assert(lv.take(i as int + 1).drop_last() =~= lv.take(i as int));
                assert(lv.take(i as int + 1).last() == lines@[i as int]@);
            }
            let ghost pre = recs_view(recs@);
            match parse_import_line(lines[i].as_str()) {
                Err(_) => {
                    proof {
                        assert(lv[i as int] == lines@[i as int]@);
                        lemma_records_bad(lv, i as int);
                    }
                    return Err(TrackError::Parse);
                },
                Ok(None) => {},
                Ok(Some(rec)) => {
                    recs.push(rec);
                    proof {
                        assert(recs_view(recs@) =~= pre.push(rec_view(rec)));
                    }
                },
            }
            i += 1;
        }
        proof {
            assert(lv.take(n as int) =~= lv);
        }
        self.apply_import(&recs)
    }
}

} // verus!
