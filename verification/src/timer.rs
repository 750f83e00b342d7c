//! A stopwatch for one working session. It holds no clock: every operation
//! that needs the time takes a reading of a monotonic clock, in ticks of
//! whatever length the caller counts in.

use vstd::prelude::*;
use crate::numeral::{decimal_padded, push_padded};

verus! {

/// The four states of the stopwatch.
#[derive(Debug, Clone, Copy, PartialEq, Eq, Structural)]
pub enum Phase {
    /// Never started, or reset.
    Initial,
    /// Counting.
    Running,
    /// Halted, and able to go on.
    Paused,
    /// Stopped for good; only a reset leads on.
    Ended,
}

/// The stopwatch as plain mathematical values.
pub ghost struct Watch {
    /// The state.
    pub phase: Phase,
    /// The ticks counted in the stretches that are over.
    pub accumulated: nat,
    /// While running, the reading at which the current stretch began;
    /// otherwise the reading at which the last stretch ended.
    pub mark: nat,
}

impl Watch {
    /// The stopwatch before its first start.
    pub open spec fn initial() -> Watch {
        Watch { phase: Phase::Initial, accumulated: 0, mark: 0 }
    }

    /// The ticks from the mark to `now`; none if `now` lies before the mark.
    pub open spec fn since_mark(self, now: nat) -> nat {
        if now >= self.mark {
            (now - self.mark) as nat
        } else {
            0
        }
    }

    /// The later of the mark and `now`.
    pub open spec fn not_before_mark(self, now: nat) -> nat {
        if now >= self.mark {
            now
        } else {
            self.mark
        }
    }

    /// A start at `now`: from `Initial` to `Running`, with `now` as the
    /// start of the stretch. In any other state nothing happens.
    pub open spec fn start(self, now: nat) -> Watch {
        if self.phase == Phase::Initial {
            Watch { phase: Phase::Running, accumulated: self.accumulated, mark: now }
        } else {
            self
        }
    }

    /// The stopwatch with the running stretch closed at `now` and `phase` as
    /// its state.
    pub open spec fn fold(self, now: nat, phase: Phase) -> Watch {
        Watch {
            phase,
            accumulated: self.accumulated + self.since_mark(now),
            mark: self.not_before_mark(now),
        }
    }

    /// A pause at `now`: from `Running` to `Paused`, the stretch since the
    /// start added to what was counted. In any other state nothing happens.
    pub open spec fn pause(self, now: nat) -> Watch {
        if self.phase == Phase::Running {
            self.fold(now, Phase::Paused)
        } else {
            self
        }
    }

    /// A resume at `now`: from `Paused` to `Running`, with `now` as the
    /// start of a new stretch (the reading of the pause, should `now` lie
    /// before it). In any other state nothing happens.
    pub open spec fn resume(self, now: nat) -> Watch {
        if self.phase == Phase::Paused {
            Watch {
                phase: Phase::Running,
                accumulated: self.accumulated,
                mark: self.not_before_mark(now),
            }
        } else {
            self
        }
    }

    /// A stop at `now`: from `Running` to `Ended`, the stretch since the
    /// start added to what was counted; from `Paused` to `Ended`, with what
    /// was counted unchanged. In any other state nothing happens.
    pub open spec fn stop(self, now: nat) -> Watch {
        if self.phase == Phase::Running {
            self.fold(now, Phase::Ended)
        } else if self.phase == Phase::Paused {
            Watch { phase: Phase::Ended, ..self }
        } else {
            self
        }
    }

    /// A reset: from `Ended` to `Initial`, with nothing counted. In any
    /// other state nothing happens.
    pub open spec fn reset(self) -> Watch {
        if self.phase == Phase::Ended {
            Watch::initial()
        } else {
            self
        }
    }

    /// The ticks counted up to `now`: while running, what was counted plus
    /// the stretch since the start; otherwise what was counted.
    pub open spec fn elapsed(self, now: nat) -> nat {
        if self.phase == Phase::Running {
            self.accumulated + self.since_mark(now)
        } else {
            self.accumulated
        }
    }

    /// What holds of every stopwatch: what was counted lies within the
    /// readings seen, and nothing is counted before the first start.
    pub open spec fn well_formed(self) -> bool {
        &&& self.accumulated <= self.mark <= u64::MAX
        &&& self.phase == Phase::Initial ==> self.accumulated == 0
    }
}

/// In its initial state the stopwatch takes nothing but a start, and once
/// stopped nothing but a reset.
pub proof fn lemma_idle_states(w: Watch, now: nat)
    ensures
        w.phase == Phase::Initial ==> w.pause(now) == w && w.resume(now) == w && w.stop(now) == w
            && w.reset() == w,
        w.phase == Phase::Ended ==> w.start(now) == w && w.pause(now) == w && w.resume(now) == w
            && w.stop(now) == w,
{
}

/// Every operation leaves a well-formed stopwatch well formed, for
/// readings that a clock of 64 bits can give.
pub proof fn lemma_stays_well_formed(w: Watch, now: nat)
    requires
        w.well_formed(),
        now <= u64::MAX,
    ensures
        w.start(now).well_formed(),
        w.pause(now).well_formed(),
        w.resume(now).well_formed(),
        w.stop(now).well_formed(),
        w.reset().well_formed(),
        w.elapsed(now) <= u64::MAX,
{
}

/// What is counted never shrinks but by a reset, and while the stopwatch
/// stands still the time counted does not depend on the reading.
pub proof fn lemma_counts_up(w: Watch, now: nat, later: nat)
    requires
        now <= later,
    ensures
        w.elapsed(now) <= w.elapsed(later),
        w.start(now).accumulated >= w.accumulated,
        w.pause(now).accumulated >= w.accumulated,
        w.resume(now).accumulated >= w.accumulated,
        w.stop(now).accumulated >= w.accumulated,
        w.phase != Phase::Running ==> w.elapsed(now) == w.accumulated,
{
}

/// A session that is started at `t0`, paused at `t1`, resumed at `t2` and
/// stopped at `t3` has counted the two stretches, and a reset clears it.
pub proof fn lemma_session(t0: nat, t1: nat, t2: nat, t3: nat, now: nat)
    requires
        t0 <= t1 <= t2 <= t3,
    ensures
        ({
            let w = Watch::initial().start(t0).pause(t1).resume(t2).stop(t3);
            &&& w.phase == Phase::Ended
            &&& w.elapsed(now) == (t1 - t0) + (t3 - t2)
            &&& w.reset() == Watch::initial()
            &&& w.reset().elapsed(now) == 0
        }),
{
}

/// A time of `seconds` seconds as the stopwatch shows it: hours, minutes
/// and seconds, each in two digits, the hours in more where they take more.
pub open spec fn clock_text(seconds: nat) -> Seq<char> {
    decimal_padded(seconds / 3600, 2) + seq![':'] + decimal_padded(seconds % 3600 / 60, 2) + seq![
        ':',
    ] + decimal_padded(seconds % 60, 2)
}

/// A time of `seconds` seconds as the stopwatch shows it.
pub fn format_clock(seconds: u64) -> (text: String)
    ensures
        text@ == clock_text(seconds as nat),
{
    let mut text = String::new();
    push_padded(&mut text, (seconds / 3600) as u128);
    text.push(':');
    push_padded(&mut text, (seconds % 3600 / 60) as u128);
    text.push(':');
    push_padded(&mut text, (seconds % 60) as u128);
    proof {
        assert(text@ =~= clock_text(seconds as nat));
    }
    text
}

/// The session stopwatch.
pub struct Timer {
    phase: Phase,
    accumulated: u64,
    mark: u64,
}

impl View for Timer {
    type V = Watch;

    closed spec fn view(&self) -> Watch {
        Watch { phase: self.phase, accumulated: self.accumulated as nat, mark: self.mark as nat }
    }
}

impl Timer {
    #[verifier::type_invariant]
    spec fn well_formed(self) -> bool {
        self@.well_formed()
    }

    /// A stopwatch that was never started.
    pub fn new() -> (timer: Timer)
        ensures
            timer@ == Watch::initial(),
            timer@.well_formed(),
    {
        Timer { phase: Phase::Initial, accumulated: 0, mark: 0 }
    }

    /// The state.
    pub fn phase(&self) -> (phase: Phase)
        ensures
            phase == self@.phase,
    {
        self.phase
    }

    /// The ticks counted in the stretches that are over.
    pub fn accumulated(&self) -> (ticks: u64)
        ensures
            ticks == self@.accumulated,
    {
        self.accumulated
    }

    /// The reading at which the running stretch began, while there is one.
    pub fn start_instant(&self) -> (start: Option<u64>)
        ensures
            start == if self@.phase == Phase::Running {
                Some(self@.mark as u64)
            } else {
                None
            },
    {
        if self.phase == Phase::Running {
            Some(self.mark)
        } else {
            None
        }
    }

    /// Starts the stopwatch at the reading `now`, if it is in its initial
    /// state.
    pub fn start(&mut self, now: u64)
        ensures
            final(self)@ == old(self)@.start(now as nat),
            final(self)@.well_formed(),
    {
        proof {
            use_type_invariant(&*self);
        }
        if self.phase == Phase::Initial {
            *self = Timer { phase: Phase::Running, accumulated: self.accumulated, mark: now };
        }
    }

    /// The stopwatch with the running stretch closed at `now`.
    fn folded(&self, now: u64, phase: Phase) -> (timer: Timer)
        requires
            phase != Phase::Initial,
        ensures
            timer@ == self@.fold(now as nat, phase),
            timer@.well_formed(),
    {
        proof {
            use_type_invariant(self);
        }
        if now >= self.mark {
            Timer { phase, accumulated: self.accumulated + (now - self.mark), mark: now }
        } else {
            Timer { phase, accumulated: self.accumulated, mark: self.mark }
        }
    }

    /// Pauses the stopwatch at the reading `now`, if it is running.
    pub fn pause(&mut self, now: u64)
        ensures
            final(self)@ == old(self)@.pause(now as nat),
            final(self)@.well_formed(),
    {
        proof {
            use_type_invariant(&*self);
        }
        if self.phase == Phase::Running {
            *self = self.folded(now, Phase::Paused);
        }
    }

    /// Lets the stopwatch run on from the reading `now`, if it is paused.
    pub fn resume(&mut self, now: u64)
        ensures
            final(self)@ == old(self)@.resume(now as nat),
            final(self)@.well_formed(),
    {
        proof {
            use_type_invariant(&*self);
        }
        if self.phase == Phase::Paused {
            let mark = if now >= self.mark {
                now
            } else {
                self.mark
            };
            *self = Timer { phase: Phase::Running, accumulated: self.accumulated, mark };
        }
    }

    /// Stops the stopwatch for good at the reading `now`, if it is running
    /// or paused.
    pub fn stop(&mut self, now: u64)
        ensures
            final(self)@ == old(self)@.stop(now as nat),
            final(self)@.well_formed(),
    {
        proof {
            use_type_invariant(&*self);
        }
        if self.phase == Phase::Running {
            *self = self.folded(now, Phase::Ended);
        } else if self.phase == Phase::Paused {
            *self = Timer { phase: Phase::Ended, accumulated: self.accumulated, mark: self.mark };
        }
    }

    /// Clears the stopwatch, if it is stopped.
    pub fn reset(&mut self)
        ensures
            final(self)@ == old(self)@.reset(),
            final(self)@.well_formed(),
    {
        proof {
            use_type_invariant(&*self);
        }
        if self.phase == Phase::Ended {
            *self = Timer { phase: Phase::Initial, accumulated: 0, mark: 0 };
        }
    }

    /// The ticks counted up to the reading `now`.
    pub fn elapsed(&self, now: u64) -> (ticks: u64)
        ensures
            ticks == self@.elapsed(now as nat),
    {
        proof {
            use_type_invariant(self);
        }
        if self.phase == Phase::Running && now >= self.mark {
            self.accumulated + (now - self.mark)
        } else {
            self.accumulated
        }
    }
}

} // verus!
