use crate::symcc::SymCCResult;
use vstd::prelude::*;

verus! {

/// The longest span a `std::time::Duration` can hold, in nanoseconds.
pub const MAX_DURATION_NANOS: u128 = 18_446_744_073_709_551_615_999_999_999u128;

/// How often, in seconds, the statistics report is written.
pub const STATS_INTERVAL_SEC: u64 = 60;

/// Whether the statistics report is due, `elapsed_secs` whole seconds after
/// it was last written: once more than the interval has passed.
pub fn report_due(elapsed_secs: u64) -> (r: bool)
    ensures
        r == (elapsed_secs > STATS_INTERVAL_SEC),
{
    elapsed_secs > STATS_INTERVAL_SEC
}

/// Nanoseconds per second.
pub const NANOS_PER_SEC: u128 = 1_000_000_000u128;

/// Nanoseconds per millisecond.
pub const NANOS_PER_MILLI: u128 = 1_000_000u128;

/// Whole milliseconds in a span of `nanos` nanoseconds.
pub open spec fn millis(nanos: u128) -> int {
    nanos as int / NANOS_PER_MILLI as int
}

/// Whole milliseconds in the `n`-th part of a span of `nanos` nanoseconds.
///
/// Dividing a `Duration` by `n` gives the whole nanoseconds of the quotient
/// (seconds and the remaining nanoseconds are divided separately, and both
/// remainders are carried into the nanoseconds, which sums to the same
/// thing), so its milliseconds are these.
pub open spec fn millis_of_part(nanos: u128, n: u32) -> int
    recommends
        n > 0,
{
    (nanos as int / n as int) / NANOS_PER_MILLI as int
}

/// Dividing a span as a `Duration` divides, with whole seconds `secs` and
/// remaining nanoseconds `sub`: `secs / n` whole seconds, plus the
/// nanoseconds `(carry * 10^9 + sub) / n` where `carry` is `secs % n`, gives
/// the same milliseconds as [`millis_of_part`].
pub proof fn lemma_duration_division(nanos: u128, n: u32)
    requires
        n > 0,
    ensures
        ({
            let secs = nanos as int / NANOS_PER_SEC as int;
            let sub = nanos as int % NANOS_PER_SEC as int;
            let carry = secs % n as int;
            let part_nanos = (carry * NANOS_PER_SEC as int + sub) / n as int;
            &&& part_nanos < NANOS_PER_SEC
            &&& (secs / n as int) * 1000 + part_nanos / NANOS_PER_MILLI as int == millis_of_part(nanos, n)
        }),
{
    let t = nanos as int;
    let m = n as int;
    let secs = t / 1_000_000_000;
    let sub = t % 1_000_000_000;
    let q = secs / m;
    let carry = secs % m;
    let x = carry * 1_000_000_000 + sub;
    assert(t == q * m * 1_000_000_000 + x) by (nonlinear_arith)
        requires
            secs == t / 1_000_000_000,
            sub == t % 1_000_000_000,
            q == secs / m,
            carry == secs % m,
            x == carry * 1_000_000_000 + sub,
            m > 0,
    ;
    assert(0 <= x < m * 1_000_000_000) by (nonlinear_arith)
        requires
            0 <= carry < m,
            0 <= sub < 1_000_000_000,
            x == carry * 1_000_000_000 + sub,
    ;
    assert(x / m < 1_000_000_000 && x / m >= 0) by (nonlinear_arith)
        requires
            0 <= x < m * 1_000_000_000,
            m > 0,
    ;
    assert(t / m == q * 1_000_000_000 + x / m) by (nonlinear_arith)
        requires
            t == q * m * 1_000_000_000 + x,
            m > 0,
            0 <= x,
            q >= 0,
    ;
    assert((q * 1_000_000_000 + x / m) / 1_000_000 == q * 1000 + (x / m) / 1_000_000) by (nonlinear_arith)
        requires
            q >= 0,
            x / m >= 0,
    ;
}

/// Execution statistics. Times are in nanoseconds.
pub struct Stats {
    /// Number of successful executions.
    pub total_count: u32,
    /// Time spent in successful executions of SymCC.
    pub total_time: u128,
    /// Time spent in the solver as part of successfully running SymCC.
    pub solver_time: Option<u128>,
    /// Number of failed executions.
    pub failed_count: u32,
    /// Time spent in failed SymCC executions.
    pub failed_time: u128,
}

/// One line of the statistics report. Times are in whole milliseconds.
#[derive(Debug, PartialEq, Eq)]
pub enum StatsLine {
    SuccessfulExecutions(u32),
    SuccessfulTime(u128),
    AverageSuccessfulTime(u128),
    SolverTime(u128),
    /// The solver's share of the successful executions' time, from which the
    /// percentages are computed.
    SolverShare { solver_millis: u128, total_millis: u128 },
    AverageSolverTime(u128),
    FailedExecutions(u32),
    FailedTime(u128),
    AverageFailedTime(u128),
    Separator,
}

/// Accumulated solver time: absent only while no execution reported any.
pub open spec fn add_solver_time(known: Option<u128>, new: Option<u128>) -> Option<int> {
    match (known, new) {
        (None, None) => None,
        (Some(t), None) => Some(t as int),
        (None, Some(t)) => Some(t as int),
        (Some(a), Some(b)) => Some(a + b),
    }
}

/// Whether an execution can be added without a count or a time overflowing.
pub open spec fn execution_fits(s: Stats, result: SymCCResult) -> bool {
    if result.killed {
        s.failed_count < u32::MAX && s.failed_time + result.time <= MAX_DURATION_NANOS
    } else {
        &&& s.total_count < u32::MAX
        &&& s.total_time + result.time <= MAX_DURATION_NANOS
        &&& add_solver_time(s.solver_time, result.solver_time) matches Some(t) ==> t
            <= MAX_DURATION_NANOS
    }
}

/// The lines of the statistics report.
pub open spec fn report(s: Stats) -> Seq<StatsLine> {
    let head = seq![
        StatsLine::SuccessfulExecutions(s.total_count),
        StatsLine::SuccessfulTime(millis(s.total_time) as u128),
    ];
    let avg = if s.total_count > 0 {
        seq![StatsLine::AverageSuccessfulTime(millis_of_part(s.total_time, s.total_count) as u128)]
    } else {
        Seq::empty()
    };
    let solver = match s.solver_time {
        Some(st) => seq![StatsLine::SolverTime(millis(st) as u128)] + if s.total_time
            >= NANOS_PER_SEC {
            seq![
                StatsLine::SolverShare {
                    solver_millis: millis(st) as u128,
                    total_millis: millis(s.total_time) as u128,
                },
                StatsLine::AverageSolverTime(millis_of_part(st, s.total_count) as u128),
            ]
        } else {
            Seq::empty()
        },
        None => Seq::empty(),
    };
    let failed = seq![
        StatsLine::FailedExecutions(s.failed_count),
        StatsLine::FailedTime(millis(s.failed_time) as u128),
    ] + if s.failed_count > 0 {
        seq![StatsLine::AverageFailedTime(millis_of_part(s.failed_time, s.failed_count) as u128)]
    } else {
        Seq::empty()
    };
    head + avg + solver + failed + seq![StatsLine::Separator]
}

fn part_millis(nanos: u128, n: u32) -> (r: u128)
    requires
        n > 0,
    ensures
        r as int == millis_of_part(nanos, n),
{
    nanos / (n as u128) / NANOS_PER_MILLI
}

/// The statistics before any execution.
pub open spec fn initial_stats() -> Stats {
    Stats { total_count: 0, total_time: 0, solver_time: None, failed_count: 0, failed_time: 0 }
}

/// The statistics after counting one more execution: a killed one as
/// failed, any other as successful with its time and solver time added.
pub open spec fn after_execution(s: Stats, result: SymCCResult) -> Stats {
    if result.killed {
        Stats {
            failed_count: (s.failed_count + 1) as u32,
            failed_time: (s.failed_time + result.time) as u128,
            ..s
        }
    } else {
        Stats {
            total_count: (s.total_count + 1) as u32,
            total_time: (s.total_time + result.time) as u128,
            solver_time: match add_solver_time(s.solver_time, result.solver_time) {
                Some(t) => Some(t as u128),
                None => None,
            },
            ..s
        }
    }
}

/// The statistics after counting the executions `rs`, in order, from none.
pub open spec fn stats_after(rs: Seq<SymCCResult>) -> Stats
    decreases rs.len(),
{
    if rs.len() == 0 {
        initial_stats()
    } else {
        after_execution(stats_after(rs.drop_last()), rs.last())
    }
}

/// Whether each execution of `rs` could be counted in turn without overflow.
pub open spec fn counts_fit(rs: Seq<SymCCResult>) -> bool {
    forall|i: int| 0 <= i < rs.len() ==> execution_fits(stats_after(#[trigger] rs.take(i)), rs[i])
}

/// The number of executions that were (`killed`) or were not (`!killed`) killed.
pub open spec fn runs_with(rs: Seq<SymCCResult>, killed: bool) -> int
    decreases rs.len(),
{
    if rs.len() == 0 {
        0
    } else {
        runs_with(rs.drop_last(), killed) + if rs.last().killed == killed { 1int } else { 0int }
    }
}

/// The total time of the executions that were (`killed`) or were not killed.
pub open spec fn time_with(rs: Seq<SymCCResult>, killed: bool) -> int
    decreases rs.len(),
{
    if rs.len() == 0 {
        0
    } else {
        time_with(rs.drop_last(), killed) + if rs.last().killed == killed { rs.last().time as int } else { 0int }
    }
}

/// The total solver time of the executions that were not killed: absent
/// when none of them reported one.
pub open spec fn solver_total(rs: Seq<SymCCResult>) -> Option<int>
    decreases rs.len(),
{
    if rs.len() == 0 {
        None
    } else if rs.last().killed {
        solver_total(rs.drop_last())
    } else {
        match (solver_total(rs.drop_last()), rs.last().solver_time) {
            (None, None) => None,
            (Some(t), None) => Some(t),
            (None, Some(t)) => Some(t as int),
            (Some(a), Some(b)) => Some(a + b),
        }
    }
}

/// Counting executions one by one from fresh statistics gives the counts and
/// sums over all of them: successful ones are counted with their times and
/// solver times, killed ones as failed with their times.
pub proof fn lemma_stats_accumulate(rs: Seq<SymCCResult>)
    requires
        counts_fit(rs),
    ensures
        stats_after(rs).total_count == runs_with(rs, false),
        stats_after(rs).total_time == time_with(rs, false),
        stats_after(rs).failed_count == runs_with(rs, true),
        stats_after(rs).failed_time == time_with(rs, true),
        (match stats_after(rs).solver_time {
            Some(t) => Some(t as int),
            None => None,
        }) == solver_total(rs),
    decreases rs.len(),
{
    if rs.len() > 0 {
        let init = rs.drop_last();
        assert forall|i: int| 0 <= i < init.len() implies execution_fits(
            stats_after(#[trigger] init.take(i)),
            init[i],
        ) by {
            assert(init.take(i) =~= rs.take(i));
            assert(execution_fits(stats_after(rs.take(i)), rs[i]));
        }
        lemma_stats_accumulate(init);
        let k = rs.len() - 1;
        assert(rs.take(k) =~= init);
        assert(execution_fits(stats_after(rs.take(k)), rs[k]));
    }
}

impl Stats {
    /// Statistics before any execution.
    pub fn new() -> (r: Stats)
        ensures
            r == initial_stats(),
    {
        Stats { total_count: 0, total_time: 0, solver_time: None, failed_count: 0, failed_time: 0 }
    }

    /// Whether [`Stats::add_execution`] accepts `result`: no count and no time
    /// would overflow.
    pub fn can_add_execution(&self, result: &SymCCResult) -> (r: bool)
        ensures
            r == execution_fits(*self, *result),
    {
        if result.killed {
            self.failed_count < u32::MAX && result.time <= MAX_DURATION_NANOS && self.failed_time
                <= MAX_DURATION_NANOS - result.time
        } else {
            if !(self.total_count < u32::MAX && result.time <= MAX_DURATION_NANOS && self.total_time
                <= MAX_DURATION_NANOS - result.time) {
                return false;
            }
            match (self.solver_time, result.solver_time) {
                (Some(a), Some(b)) => b <= MAX_DURATION_NANOS && a <= MAX_DURATION_NANOS - b,
                (Some(a), None) => a <= MAX_DURATION_NANOS,
                (None, Some(b)) => b <= MAX_DURATION_NANOS,
                (None, None) => true,
            }
        }
    }

    /// Counts one execution of SymCC: a killed one as failed, any other as
    /// successful, adding its time, and for a successful one its solver time.
    pub fn add_execution(&mut self, result: &SymCCResult)
        requires
            execution_fits(*old(self), *result),
        ensures
            *final(self) == after_execution(*old(self), *result),
    {
        if result.killed {
            self.failed_count = self.failed_count + 1;
            self.failed_time = self.failed_time + result.time;
        } else {
            self.total_count = self.total_count + 1;
            self.total_time = self.total_time + result.time;
            self.solver_time = match (self.solver_time, result.solver_time) {
                (None, None) => None,
                (Some(t), None) => Some(t),
                (None, Some(t)) => Some(t),
                (Some(a), Some(b)) => Some(a + b),
            };
        }
    }

    /// The lines of the statistics report, in the order they are written.
    pub fn log(&self) -> (r: Vec<StatsLine>)
        requires
            (self.solver_time is Some && self.total_time >= NANOS_PER_SEC) ==> self.total_count > 0,
        ensures
            r@ == report(*self),
    {
        let mut lines: Vec<StatsLine> = Vec::new();
        lines.push(StatsLine::SuccessfulExecutions(self.total_count));
        lines.push(StatsLine::SuccessfulTime(self.total_time / NANOS_PER_MILLI));
        if self.total_count > 0 {
            lines.push(StatsLine::AverageSuccessfulTime(part_millis(self.total_time, self.total_count)));
        }
        if let Some(st) = self.solver_time {
            lines.push(StatsLine::SolverTime(st / NANOS_PER_MILLI));
            if self.total_time >= NANOS_PER_SEC {
                lines.push(
                    StatsLine::SolverShare {
                        solver_millis: st / NANOS_PER_MILLI,
                        total_millis: self.total_time / NANOS_PER_MILLI,
                    },
                );
                lines.push(StatsLine::AverageSolverTime(part_millis(st, self.total_count)));
            }
        }
        lines.push(StatsLine::FailedExecutions(self.failed_count));
        lines.push(StatsLine::FailedTime(self.failed_time / NANOS_PER_MILLI));
        if self.failed_count > 0 {
            lines.push(StatsLine::AverageFailedTime(part_millis(self.failed_time, self.failed_count)));
        }
        lines.push(StatsLine::Separator);
        assert(lines@ =~= report(*self));
        lines
    }
}

} // verus!
