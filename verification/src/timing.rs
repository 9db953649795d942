//! The fixed-timestep catch-up timer.
//!
//! The host hands in the elapsed time; the timer accumulates lag and says
//! when a simulation update is due, consuming one update interval each time.

use vstd::prelude::*;

verus! {

/// Milliseconds per simulation update.
pub const MS_PER_UPDATE: u64 = 16;

/// Tracks how far the simulation lags behind the clock the host reads.
pub struct CatchupTimer {
    pub previous_update_time: u64,
    pub lag: u64,
    pub previous_fps_time: u64,
    pub fps: u32,
}

impl CatchupTimer {
    pub fn new() -> (r: CatchupTimer)
        ensures
            r.previous_update_time == 0,
            r.lag == 0,
            r.previous_fps_time == 0,
            r.fps == 0,
    {
        CatchupTimer { previous_update_time: 0, lag: 0, previous_fps_time: 0, fps: 0 }
    }

    /// One poll at `current` milliseconds since start: the elapsed time is
    /// added to the lag; when a whole update interval has accumulated it is
    /// consumed and an update is due, otherwise the frame counter advances
    /// (and resets once a second).
    pub fn should_update(&mut self, current: u64) -> (r: bool)
        requires
            current >= old(self).previous_update_time,
            current >= old(self).previous_fps_time,
            old(self).lag + current - old(self).previous_update_time <= u64::MAX,
            old(self).fps < u32::MAX,
        ensures
            final(self).previous_update_time == current,
            r == (old(self).lag + current - old(self).previous_update_time >= MS_PER_UPDATE),
            r ==> final(self).lag == old(self).lag + current - old(self).previous_update_time
                - MS_PER_UPDATE && final(self).fps == old(self).fps,
            !r ==> final(self).lag == old(self).lag + current - old(self).previous_update_time
                && (current - old(self).previous_fps_time > 1000 ==> final(self).fps == 0
                && final(self).previous_fps_time == current) && (current - old(
                self,
            ).previous_fps_time <= 1000 ==> final(self).fps == old(self).fps + 1),
    {
        let elapsed = current - self.previous_update_time;
        self.previous_update_time = current;
        self.lag = self.lag + elapsed;
        if self.lag >= MS_PER_UPDATE {
            self.lag = self.lag - MS_PER_UPDATE;
            true
        } else {
            self.fps = self.fps + 1;
            if current - self.previous_fps_time > 1000 {
                self.previous_fps_time = current;
                self.fps = 0;
            }
            false
        }
    }
}

} // verus!
