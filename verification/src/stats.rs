//! Optional timers around the stages of hunk processing.

use vstd::prelude::*;
use std::time::Duration;
use std::time::SystemTime;

verus! {

/// A point in time of the system clock, as `std::time::SystemTime` holds
/// it. Nothing is known of what it holds.
#[verifier::external_type_specification]
#[verifier::external_body]
pub struct ExSystemTime(SystemTime);

/// `SystemTime::now`: the current time of the system clock. Nothing is
/// claimed of it.
#[verifier::external_body]
fn system_now() -> (t: SystemTime) {
    SystemTime::now()
}

/// `SystemTime::elapsed`: the time that has passed since `t`, or nothing
/// where the clock has gone back behind `t`. Nothing is claimed of the
/// amount.
#[verifier::external_body]
fn elapsed_since(t: &SystemTime) -> (d: Option<Duration>) {
    match t.elapsed() {
        Ok(d) => Some(d),
        Err(_) => None,
    }
}

/// `Duration::as_millis`: the whole milliseconds of `d`. Nothing is
/// claimed of the amount.
#[verifier::external_body]
fn whole_millis(d: &Duration) -> (ms: u128) {
    d.as_millis()
}

/// The current time where timings are taken, else nothing.
pub fn now(do_timings: bool) -> (t: Option<SystemTime>)
    ensures
        t.is_some() == do_timings,
{
    if do_timings {
        Some(system_now())
    } else {
        None
    }
}

/// What a measurement counts for: its milliseconds, or 0 where the clock
/// has gone back behind the start and there is no measurement.
pub fn elapsed_ms(elapsed: Option<u128>) -> (ms: u128)
    ensures
        ms == match elapsed {
            Some(measured) => measured,
            None => 0,
        },
{
    match elapsed {
        Some(measured) => measured,
        None => 0,
    }
}

/// Milliseconds since `time`; 0 where there is no start time, or where the
/// clock has gone back behind it.
pub fn duration_ms_since(time: &Option<SystemTime>) -> (ms: u128)
    ensures
        time.is_none() ==> ms == 0,
{
    match time {
        Some(t) => {
            let elapsed = match elapsed_since(t) {
                Some(d) => Some(whole_millis(&d)),
                None => None,
            };
            elapsed_ms(elapsed)
        },
        None => 0,
    }
}

/// The stages that are timed.
#[derive(Clone, Copy, Debug, PartialEq, Eq)]
pub enum Timer {
    HunkProcessing,
    ComputeLcs,
    OptimizeLcs,
    Total,
}

impl Timer {
    /// The name of the stage in the report.
    pub open spec fn spec_name(self) -> Seq<char> {
        match self {
            Timer::HunkProcessing => "hunk processing time"@,
            Timer::ComputeLcs => "-- compute lcs"@,
            Timer::OptimizeLcs => "-- optimize lcs"@,
            Timer::Total => "total processing time"@,
        }
    }

    /// The name of the stage in the report.
    pub fn name(&self) -> (name: &'static str)
        ensures
            name@ == self.spec_name(),
    {
        match self {
            Timer::HunkProcessing => "hunk processing time",
            Timer::ComputeLcs => "-- compute lcs",
            Timer::OptimizeLcs => "-- optimize lcs",
            Timer::Total => "total processing time",
        }
    }
}

/// Accumulated times in milliseconds. Where `program_start` is absent no
/// timings are taken.
pub struct ExecStats {
    pub time_computing_diff_ms: u128,
    pub time_lcs_ms: u128,
    pub time_opt_lcs_ms: u128,
    pub total_time_ms: u128,
    pub program_start: Option<SystemTime>,
}

/// The sum of two amounts of time, or the largest amount there is where
/// the sum is beyond it.
pub open spec fn add_ms(total: u128, ms: u128) -> u128 {
    if total + ms > u128::MAX {
        u128::MAX
    } else {
        (total + ms) as u128
    }
}

/// The times after `ms` milliseconds have been measured for `timer`: the
/// time of a stage grows by them, and the total time is set to them.
pub open spec fn recorded(before: ExecStats, timer: Timer, ms: u128) -> ExecStats {
    match timer {
        Timer::HunkProcessing => ExecStats {
            time_computing_diff_ms: add_ms(before.time_computing_diff_ms, ms),
            ..before
        },
        Timer::ComputeLcs => ExecStats { time_lcs_ms: add_ms(before.time_lcs_ms, ms), ..before },
        Timer::OptimizeLcs => ExecStats {
            time_opt_lcs_ms: add_ms(before.time_opt_lcs_ms, ms),
            ..before
        },
        Timer::Total => ExecStats { total_time_ms: ms, ..before },
    }
}

/// The timers of the stages have gone on and none has gone back; where no
/// timings are taken they stand still.
pub open spec fn timers_advanced(before: ExecStats, after: ExecStats) -> bool {
    &&& after.program_start == before.program_start
    &&& after.total_time_ms == before.total_time_ms
    &&& after.time_computing_diff_ms >= before.time_computing_diff_ms
    &&& after.time_lcs_ms >= before.time_lcs_ms
    &&& after.time_opt_lcs_ms >= before.time_opt_lcs_ms
    &&& before.program_start.is_none() ==> after == before
}

impl ExecStats {
    /// Timers at zero. The start time is taken where `debug` is set.
    pub fn new(debug: bool) -> (stats: Self)
        ensures
            stats.time_computing_diff_ms == 0,
            stats.time_lcs_ms == 0,
            stats.time_opt_lcs_ms == 0,
            stats.total_time_ms == 0,
            stats.program_start.is_some() == debug,
    {
        ExecStats {
            time_computing_diff_ms: 0,
            time_lcs_ms: 0,
            time_opt_lcs_ms: 0,
            total_time_ms: 0,
            program_start: now(debug),
        }
    }

    /// Whether the clock is to be read at all.
    pub fn do_timings(&self) -> (yes: bool)
        ensures
            yes == self.program_start.is_some(),
    {
        self.program_start.is_some()
    }

    /// Takes down `ms` milliseconds measured for `timer`.
    pub fn record(&mut self, timer: Timer, ms: u128)
        ensures
            *final(self) == recorded(*old(self), timer, ms),
    {
        match timer {
            Timer::HunkProcessing => {
                self.time_computing_diff_ms = self.time_computing_diff_ms.saturating_add(ms);
            },
            Timer::ComputeLcs => {
                self.time_lcs_ms = self.time_lcs_ms.saturating_add(ms);
            },
            Timer::OptimizeLcs => {
                self.time_opt_lcs_ms = self.time_opt_lcs_ms.saturating_add(ms);
            },
            Timer::Total => {
                self.total_time_ms = ms;
            },
        }
    }

    /// Takes the total time since the start, where timings are taken.
    pub fn stop(&mut self)
        ensures
            final(self).time_computing_diff_ms == old(self).time_computing_diff_ms,
            final(self).time_lcs_ms == old(self).time_lcs_ms,
            final(self).time_opt_lcs_ms == old(self).time_opt_lcs_ms,
            final(self).program_start == old(self).program_start,
            old(self).program_start.is_none() ==> final(self).total_time_ms == old(
                self,
            ).total_time_ms,
    {
        if self.do_timings() {
            let ms = duration_ms_since(&self.program_start);
            self.record(Timer::Total, ms);
        }
    }

    /// Appends the rows of the report to `rows`, each a stage and its
    /// time: the three stages of hunk processing, then the total. Where no
    /// timings are taken there is no report.
    pub fn report_into(&self, rows: &mut Vec<(Timer, u128)>)
        ensures
            final(rows)@ == old(rows)@ + (if self.program_start.is_some() {
                seq![
                    (Timer::HunkProcessing, self.time_computing_diff_ms),
                    (Timer::ComputeLcs, self.time_lcs_ms),
                    (Timer::OptimizeLcs, self.time_opt_lcs_ms),
                    (Timer::Total, self.total_time_ms),
                ]
            } else {
                Seq::empty()
            }),
    {
        if self.do_timings() {
            let ghost before = rows@;
            rows.push((Timer::HunkProcessing, self.time_computing_diff_ms));
            rows.push((Timer::ComputeLcs, self.time_lcs_ms));
            rows.push((Timer::OptimizeLcs, self.time_opt_lcs_ms));
            rows.push((Timer::Total, self.total_time_ms));
            assert(rows@ =~= before + seq![
                (Timer::HunkProcessing, self.time_computing_diff_ms),
                (Timer::ComputeLcs, self.time_lcs_ms),
                (Timer::OptimizeLcs, self.time_opt_lcs_ms),
                (Timer::Total, self.total_time_ms),
            ]);
        } else {
            assert(rows@ =~= rows@ + Seq::<(Timer, u128)>::empty());
        }
    }
}

} // verus!
