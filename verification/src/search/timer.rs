use vstd::prelude::*;
use std::time::{Duration, Instant};

verus! {

#[verifier::external_type_specification]
#[verifier::external_body]
pub struct ExInstant(Instant);

/// `Instant::now` of std: the current time; nothing is stated of it.
#[verifier::external_body]
fn instant_now() -> Instant {
    Instant::now()
}

/// `Instant::elapsed` of std: the time since the instant; nothing is stated of it.
#[verifier::external_body]
fn instant_elapsed(start: &Instant) -> Duration {
    start.elapsed()
}

/// `Duration::as_millis` of std: the whole milliseconds of a duration; nothing is stated of
/// a duration that the clock gave.
#[verifier::external_body]
fn duration_as_millis(d: &Duration) -> u128 {
    d.as_millis()
}

pub struct Timer {
    pub time_alloted: u64,  // milliseconds
    pub max_nodes: u64,
    pub maxdepth: u8,
    pub start_time: Instant,
    pub is_timed: bool,
    pub stopped: bool,
}

impl Default for Timer {
    fn default() -> (r: Self)
        ensures
            r.is_fresh(),
    {
        Self::new()
    }
}

/// The time to spend on a move: a thirtieth of the time left plus a quarter of the
/// increment, but never more than an eighth of the time left (or 1 ms when that is 0).
pub open spec fn allotted(timeleft: u64, inc: u64) -> u64 {
    let cannot_exceed: int = if timeleft / 8 > 1 { (timeleft / 8) as int } else { 1 };
    let t: int = timeleft / 30 + inc / 4;
    (if t < cannot_exceed { t } else { cannot_exceed }) as u64
}

impl Timer {
    /// No limit on time, nodes or depth, untimed and not stopped.
    pub open spec fn is_fresh(&self) -> bool {
        &&& self.time_alloted == u64::MAX
        &&& self.max_nodes == u64::MAX
        &&& self.maxdepth == u8::MAX
        &&& !self.is_timed
        &&& !self.stopped
    }

    pub fn new() -> (r: Timer)
        ensures
            r.is_fresh(),
    {
        Timer {
            time_alloted: u64::MAX,
            max_nodes: u64::MAX,
            maxdepth: u8::MAX,
            start_time: instant_now(),
            is_timed: false,
            stopped: false,
        }
    }

    /// Whether the allotted time has run out since the start (reads the clock): with no
    /// time allotted it has, whatever the clock says.
    pub fn check_time(&self) -> (r: bool)
        ensures
            self.time_alloted == 0 ==> r,
    {
        let elapsed = instant_elapsed(&self.start_time);
        Timer::time_is_up(duration_as_millis(&elapsed), self.time_alloted)
    }

    /// Whether `elapsed_ms` milliseconds, cut to 64 bits, reach the allotted time.
    pub fn time_is_up(elapsed_ms: u128, time_alloted: u64) -> (r: bool)
        ensures
            r == (#[verifier::truncate] (elapsed_ms as u64) >= time_alloted),
    {
        #[verifier::truncate] (elapsed_ms as u64) >= time_alloted
    }

    pub fn allocate_time(timeleft: u64, inc: u64) -> (r: u64)
        ensures
            r == allotted(timeleft, inc),
    {
        // never more than 1/8 of the time left, to avoid time pressure
        let cannot_exceed = if timeleft / 8 > 1 { timeleft / 8 } else { 1 };
        let timeleft = (timeleft / 30) + inc / 4;
        if timeleft < cannot_exceed { timeleft } else { cannot_exceed }
    }

    /// Lifts every limit and restarts the clock.
    pub fn refresh(&mut self)
        ensures
            final(self).is_fresh(),
    {
        self.time_alloted = u64::MAX;
        self.max_nodes = u64::MAX;
        self.maxdepth = u8::MAX;
        self.start_time = instant_now();
        self.is_timed = false;
        self.stopped = false;
    }
}

} // verus!
