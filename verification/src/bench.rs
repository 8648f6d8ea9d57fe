//! Timing of benchmarks.
use vstd::prelude::*;
use time::Duration;
use time::PreciseTime;

verus! {

#[verifier::external_type_specification]
#[verifier::external_body]
pub struct ExPreciseTime(PreciseTime);

#[verifier::external_type_specification]
#[verifier::external_body]
pub struct ExDuration(Duration);

/// Reads the clock: `time::PreciseTime::now`. Nothing is claimed of the moment it returns.
#[verifier::external_body]
fn precise_now() -> (r: PreciseTime) {
    PreciseTime::now()
}

/// The span from `start` to a fresh reading of the clock: `time::PreciseTime::to`, applied to
/// `time::PreciseTime::now`. `start` comes from the same monotonic clock, so the later reading
/// is never before it. It takes `after`, what the timed call returned, so that the reading can
/// only be taken once that call has returned. Nothing is claimed of the span, since it depends
/// on the clock.
#[verifier::external_body]
fn precise_elapsed<T>(start: &PreciseTime, after: &T) -> (r: Duration) {
    let _ = after;
    start.to(PreciseTime::now())
}

/// The whole nanoseconds of a span, or `None` when they do not fit in an `i64`:
/// `time::Duration::num_nanoseconds`. Nothing is claimed of the number.
#[verifier::external_body]
fn duration_nanos(d: &Duration) -> (r: Option<i64>) {
    d.num_nanoseconds()
}

/// Keeps the optimizer from discarding a value: `std::hint::black_box`.
#[verifier::external_body]
fn black_box_ref<T>(t: &T) {
    std::hint::black_box(t);
}

/// The outcome of a benchmark.
pub enum BenchResult {
    /// Running took this many nanoseconds (`None` when that does not fit in an `i64`), for
    /// this many iterations.
    Timed(Option<i64>, u64),
    Fail(String),
    /// Nothing was run yet.
    NotRun,
}

/// Times a benchmark.
pub struct Bencher {
    result: BenchResult,
}

impl Bencher {
    /// What the last benchmark gave.
    pub closed spec fn result_view(&self) -> BenchResult {
        self.result
    }

    pub fn new() -> (r: Bencher)
        ensures
            r.result_view() is NotRun,
    {
        Bencher { result: BenchResult::NotRun }
    }

    /// Runs `f` once, timing it, records the time together with the number of iterations
    /// `f` stands for, and returns what `f` returned.
    pub fn bench<T, F>(&mut self, count: u64, f: F) -> (r: T)
        where F: FnOnce() -> T
        requires
            f.requires(()),
        ensures
            f.ensures((), r),
            final(self).result_view() matches BenchResult::Timed(_, c) && c == count,
    {
        let start = precise_now();
        let t = f();
        let span = precise_elapsed(&start, &t);
        black_box_ref(&t);
        self.result = BenchResult::Timed(duration_nanos(&span), count);
        t
    }

    /// What the last benchmark gave.
    pub fn result(&self) -> (r: BenchResult)
        ensures
            r matches BenchResult::Timed(n, c) ==> self.result_view() == BenchResult::Timed(n, c),
            r matches BenchResult::Fail(s) ==> self.result_view() matches BenchResult::Fail(s0) && s@ == s0@,
            r is NotRun ==> self.result_view() is NotRun,
            self.result_view() is Timed ==> r is Timed,
            self.result_view() is Fail ==> r is Fail,
    {
        match &self.result {
            BenchResult::Timed(n, c) => BenchResult::Timed(*n, *c),
            BenchResult::Fail(s) => BenchResult::Fail(s.clone()),
            BenchResult::NotRun => BenchResult::NotRun,
        }
    }
}

/// The unit a duration is shown in.
#[derive(PartialEq, Eq, Structural, Clone, Copy, Debug)]
pub enum DurationUnit {
    Nanos,
    Micros,
    Millis,
    Seconds,
}

impl DurationUnit {
    /// The number of nanoseconds in one of this unit.
    pub open spec fn nanos_spec(self) -> int {
        match self {
            DurationUnit::Nanos => 1,
            DurationUnit::Micros => 1000,
            DurationUnit::Millis => 1000000,
            DurationUnit::Seconds => 1000000000,
        }
    }

    /// The number of nanoseconds in one of this unit.
    pub fn nanos(self) -> (r: u64)
        ensures
            r == self.nanos_spec(),
    {
        match self {
            DurationUnit::Nanos => 1,
            DurationUnit::Micros => 1000,
            DurationUnit::Millis => 1000000,
            DurationUnit::Seconds => 1000000000,
        }
    }

    /// The suffix a duration in this unit is shown with.
    pub open spec fn suffix_spec(self) -> Seq<char> {
        match self {
            DurationUnit::Nanos => "ns"@,
            DurationUnit::Micros => "µs"@,
            DurationUnit::Millis => "ms"@,
            DurationUnit::Seconds => "s "@,
        }
    }

    /// The suffix a duration in this unit is shown with.
    pub fn suffix(self) -> (r: &'static str)
        ensures
            r@ == self.suffix_spec(),
    {
        match self {
            DurationUnit::Nanos => "ns",
            DurationUnit::Micros => "µs",
            DurationUnit::Millis => "ms",
            DurationUnit::Seconds => "s ",
        }
    }
}


/// Each unit holds a thousand of the one below it, starting from one nanosecond; so a
/// duration of at least a nanosecond, shown in the unit `duration_unit` picks, shows a number
/// from 1 up to (for all but seconds) under 1000.
pub proof fn law_units_scale_by_thousands(ns: int)
    ensures
        DurationUnit::Nanos.nanos_spec() == 1,
        DurationUnit::Micros.nanos_spec() == 1000 * DurationUnit::Nanos.nanos_spec(),
        DurationUnit::Millis.nanos_spec() == 1000 * DurationUnit::Micros.nanos_spec(),
        DurationUnit::Seconds.nanos_spec() == 1000 * DurationUnit::Millis.nanos_spec(),
        1 <= ns ==> 1 <= ns / unit_for(ns).nanos_spec(),
        ns < 1000000000 ==> ns / unit_for(ns).nanos_spec() < 1000,
{
}

/// The unit `duration_unit` picks for a duration of `ns` nanoseconds.
pub open spec fn unit_for(ns: int) -> DurationUnit {
    if ns < 1000 {
        DurationUnit::Nanos
    } else if ns < 1000000 {
        DurationUnit::Micros
    } else if ns < 1000000000 {
        DurationUnit::Millis
    } else {
        DurationUnit::Seconds
    }
}

/// Units are told apart by their labels, and each label names its unit's size: "ns" for one
/// nanosecond, "µs" for a thousand, "ms" for a million, "s " for a thousand million.
pub proof fn law_suffix_names_the_unit(a: DurationUnit, b: DurationUnit)
    ensures
        a.suffix_spec() == b.suffix_spec() ==> a == b,
        a.nanos_spec() == 1 ==> a.suffix_spec() == "ns"@,
        a.nanos_spec() == 1000 ==> a.suffix_spec() == "µs"@,
        a.nanos_spec() == 1000000 ==> a.suffix_spec() == "ms"@,
        a.nanos_spec() == 1000000000 ==> a.suffix_spec() == "s "@,
{
    reveal_strlit("ns");
    reveal_strlit("µs");
    reveal_strlit("ms");
    reveal_strlit("s ");
    if a.suffix_spec() == b.suffix_spec() && a != b {
        assert(a.suffix_spec()[0] != b.suffix_spec()[0] || a.suffix_spec()[1] != b.suffix_spec()[1]);
    }
    if a.nanos_spec() == 1 {
        assert(a == DurationUnit::Nanos);
    }
    if a.nanos_spec() == 1000 {
        assert(a == DurationUnit::Micros);
    }
    if a.nanos_spec() == 1000000 {
        assert(a == DurationUnit::Millis);
    }
    if a.nanos_spec() == 1000000000 {
        assert(a == DurationUnit::Seconds);
    }
}

/// The unit a duration of `ns` nanoseconds is shown in: the largest of nanoseconds,
/// microseconds and milliseconds in which it is under a thousand, else seconds.
pub fn duration_unit(ns: i64) -> (r: DurationUnit)
    ensures
        ns < 1000 ==> r == DurationUnit::Nanos,
        1000 <= ns < 1000000 ==> r == DurationUnit::Micros,
        1000000 <= ns < 1000000000 ==> r == DurationUnit::Millis,
        1000000000 <= ns ==> r == DurationUnit::Seconds,
        r == unit_for(ns as int),
{
    if ns < 1000 {
        DurationUnit::Nanos
    } else if ns < 1000000 {
        DurationUnit::Micros
    } else if ns < 1000000000 {
        DurationUnit::Millis
    } else {
        DurationUnit::Seconds
    }
}

/// The time of one iteration, in nanoseconds, of a run of `count` iterations that took
/// `total` nanoseconds, rounded down: `None` where there were no iterations, or more than
/// fit in an `i32`.
pub fn per_iteration_nanos(total: u64, count: u64) -> (r: Option<u64>)
    ensures
        r == if count == 0 || count > i32::MAX {
            None::<u64>
        } else {
            Some((total / count) as u64)
        },
{
    if count == 0 || count > i32::MAX as u64 {
        None
    } else {
        Some(total / count)
    }
}

} // verus!
