//! Control logic of the gravity timer.
//!
//! The timer itself runs outside the library on its own schedule and owns a
//! wall clock; everything it decides — the drop interval for a level and
//! how a control signal changes its state — is computed here.

use vstd::prelude::*;

verus! {

/// A control signal sent to the gravity timer.
#[derive(Clone, Copy, PartialEq, Eq, Structural, Debug)]
pub enum TimerSignal {
    /// Bump the timer's level by one and speed up accordingly.
    Increase,
    /// Suspend tick emission.
    Pause,
    /// Resume tick emission.
    Unpause,
    /// Reset the timer's level to 0.
    Reset,
    /// Terminate the timer permanently.
    Kill,
}

/// Whether the timer is emitting ticks, suspended, or gone.
#[derive(Clone, Copy, PartialEq, Eq, Structural, Debug)]
pub enum TimerMode {
    Running,
    Paused,
    Killed,
}

/// The number of frames between two gravity drops at `level`, from the
/// fixed 15-entry frame-count table: levels 0-9 map to entries 0-9, 10-12
/// to entry 10, 13-15 to entry 11, 16-18 to entry 12, 19-28 to entry 13,
/// and 29 and above to entry 14.
pub open spec fn spec_frames_for_level(level: u8) -> u8 {
    if level == 0 {
        48
    } else if level == 1 {
        43
    } else if level == 2 {
        38
    } else if level == 3 {
        33
    } else if level == 4 {
        28
    } else if level == 5 {
        23
    } else if level == 6 {
        18
    } else if level == 7 {
        13
    } else if level == 8 {
        8
    } else if level == 9 {
        6
    } else if level <= 12 {
        5
    } else if level <= 15 {
        4
    } else if level <= 18 {
        3
    } else if level <= 28 {
        2
    } else {
        1
    }
}

/// The wall-clock gravity interval for `level`, in milliseconds: the frame
/// count of the level bucket times 17 ms per frame.
pub fn get_drop_time_duration(level: u8) -> (d: u128)
    ensures
        d == 17 * spec_frames_for_level(level) as u128,
{
    let frames: u8 = if level == 0 {
        48
    } else if level == 1 {
        43
    } else if level == 2 {
        38
    } else if level == 3 {
        33
    } else if level == 4 {
        28
    } else if level == 5 {
        23
    } else if level == 6 {
        18
    } else if level == 7 {
        13
    } else if level == 8 {
        8
    } else if level == 9 {
        6
    } else if level <= 12 {
        5
    } else if level <= 15 {
        4
    } else if level <= 18 {
        3
    } else if level <= 28 {
        2
    } else {
        1
    };
    17 * frames as u128
}

/// The private level/interval state of the gravity timer.
pub struct Timer {
    pub level: u8,
    pub duration: u128,
}

impl Timer {
    /// The interval always matches the level.
    pub open spec fn wf(self) -> bool {
        self.duration == 17 * spec_frames_for_level(self.level) as u128
    }

    /// A timer starting at `start` with the matching interval.
    pub fn new(start: u8) -> (t: Timer)
        ensures
            t.wf(),
            t.level == start,
    {
        Timer { level: start, duration: get_drop_time_duration(start) }
    }

    /// Bump the level by one and recompute the interval.  At the top level
    /// the timer stays put: the interval table is constant from there on
    /// anyway.
    pub fn increase(&mut self)
        requires
            old(self).wf(),
        ensures
            final(self).wf(),
            final(self).level == if old(self).level < 255 {
                old(self).level + 1
            } else {
                old(self).level as int
            },
    {
        if self.level < 255 {
            self.level = self.level + 1;
        }
        self.duration = get_drop_time_duration(self.level);
    }
}

/// How the gravity timer reacts to one control signal in a given mode.
/// Running: Increase speeds it up, Pause suspends it, Reset restarts it at
/// level 0, Kill ends it.  Paused: Unpause resumes, Reset restarts at level
/// 0 while staying paused, Kill ends it; everything else is ignored.
pub fn timer_transition(mode: TimerMode, timer: &mut Timer, signal: TimerSignal) -> (m: TimerMode)
    requires
        old(timer).wf(),
    ensures
        final(timer).wf(),
        m == match mode {
            TimerMode::Running => match signal {
                TimerSignal::Pause => TimerMode::Paused,
                TimerSignal::Kill => TimerMode::Killed,
                _ => TimerMode::Running,
            },
            TimerMode::Paused => match signal {
                TimerSignal::Unpause => TimerMode::Running,
                TimerSignal::Kill => TimerMode::Killed,
                _ => TimerMode::Paused,
            },
            TimerMode::Killed => TimerMode::Killed,
        },
        final(timer).level == match mode {
            TimerMode::Running => match signal {
                TimerSignal::Increase => if old(timer).level < 255 {
                    old(timer).level + 1
                } else {
                    old(timer).level as int
                },
                TimerSignal::Reset => 0int,
                _ => old(timer).level as int,
            },
            TimerMode::Paused => match signal {
                TimerSignal::Reset => 0int,
                _ => old(timer).level as int,
            },
            TimerMode::Killed => old(timer).level as int,
        },
{
    match mode {
        TimerMode::Running => match signal {
            TimerSignal::Increase => {
                timer.increase();
                TimerMode::Running
            },
            TimerSignal::Pause => TimerMode::Paused,
            TimerSignal::Unpause => TimerMode::Running,
            TimerSignal::Reset => {
                *timer = Timer::new(0);
                TimerMode::Running
            },
            TimerSignal::Kill => TimerMode::Killed,
        },
        TimerMode::Paused => match signal {
            TimerSignal::Unpause => TimerMode::Running,
            TimerSignal::Reset => {
                *timer = Timer::new(0);
                TimerMode::Paused
            },
            TimerSignal::Kill => TimerMode::Killed,
            _ => TimerMode::Paused,
        },
        TimerMode::Killed => TimerMode::Killed,
    }
}

} // verus!
