//! When a frame is sampled, and when the run is over.

use vstd::prelude::*;

verus! {

/// The frame at which a screenshot is taken.
pub const SCREENSHOT_FRAME: u32 = 90;

/// One measured quantity over the run. Samples are double-precision numbers
/// as bit patterns; times are any numbering of the instants of measurement.
pub struct Series {
    pub values: Vec<u64>,
    pub last_time: Option<u64>,
}

impl Series {
    pub fn new() -> (series: Series)
        ensures
            series.values@ == Seq::<u64>::empty(),
            series.last_time is None,
    {
        Series { values: Vec::new(), last_time: None }
    }

    /// Readback lags a few frames: a measurement that was made at the time of
    /// the last one is the last one. Each is counted once, up to `frames`.
    pub fn record(&mut self, time: u64, value: u64, frames: u32)
        ensures
            old(self).last_time != Some(time) && (old(self).values@.len() as u32) < frames ==> {
                &&& final(self).values@ == old(self).values@.push(value)
                &&& final(self).last_time == Some(time)
            },
            !(old(self).last_time != Some(time) && (old(self).values@.len() as u32) < frames)
                ==> *final(self) == *old(self),
    {
        let fresh: bool = match self.last_time {
            None => true,
            Some(last) => last != time,
        };
        if fresh && (self.values.len() as u32) < frames {
            self.last_time = Some(time);
            self.values.push(value);
        }
    }
}

/// What happens in a frame.
#[derive(Clone, Copy, Debug, PartialEq, Eq, Structural)]
pub struct SampleStep {
    /// A screenshot is taken.
    pub screenshot: bool,
    /// Warm-up is over: measurements are read.
    pub measure: bool,
    /// This is the first measured frame.
    pub announce: bool,
    /// Enough frames were measured: the run ends.
    pub finish: bool,
}

/// The run so far.
pub struct BenchState {
    /// Frame times, as bit patterns.
    pub cpu_ms: Vec<u64>,
    pub announced: bool,
}

impl BenchState {
    pub fn new() -> (state: BenchState)
        ensures
            state.cpu_ms@ == Seq::<u64>::empty(),
            !state.announced,
    {
        BenchState { cpu_ms: Vec::new(), announced: false }
    }

    /// Samples one frame. Frames up to the warm-up are not measured.
    pub fn sample(
        &mut self,
        frame: u32,
        warmup: u32,
        frames: u32,
        screenshot: bool,
        frame_time: u64,
    ) -> (step: SampleStep)
        ensures
            step.screenshot == (screenshot && frame == SCREENSHOT_FRAME),
            step.screenshot ==> frame == 90,
            screenshot && frame == 90 ==> step.screenshot,
            step.measure == (frame > warmup),
            step.announce == (frame > warmup && !old(self).announced),
            step.finish == (frame > warmup && (final(self).cpu_ms@.len() as u32) >= frames),
            final(self).announced == (old(self).announced || frame > warmup),
            final(self).cpu_ms@ == if frame > warmup && (old(self).cpu_ms@.len() as u32) < frames {
                old(self).cpu_ms@.push(frame_time)
            } else {
                old(self).cpu_ms@
            },
    {
        let shot: bool = screenshot && frame == SCREENSHOT_FRAME;
        if frame <= warmup {
            return SampleStep { screenshot: shot, measure: false, announce: false, finish: false };
        }
        let announce: bool = !self.announced;
        self.announced = true;
        if (self.cpu_ms.len() as u32) < frames {
            self.cpu_ms.push(frame_time);
        }
        let finish: bool = (self.cpu_ms.len() as u32) >= frames;
        SampleStep { screenshot: shot, measure: true, announce, finish }
    }
}

} // verus!
