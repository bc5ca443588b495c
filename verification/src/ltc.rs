//! The LTC decoder of the `timecode-coder` crate.

use timecode_coder::ltc_decoder::LtcDecoder;
use vstd::prelude::*;

verus! {

/// Framerate that an LTC signal reports.
#[derive(Debug, Clone, Copy, PartialEq, Eq, Structural)]
pub enum FramesPerSecond {
    Unknown,
    TwentyFour,
    TwentyFive,
    Thirty,
}

/// One frame of timecode read from an LTC signal.
#[derive(Debug, Clone, Copy, PartialEq, Eq, Structural)]
pub struct TimecodeFrame {
    pub hours: u8,
    pub minutes: u8,
    pub seconds: u8,
    pub frames: u8,
    pub frames_per_second: FramesPerSecond,
}

/// A `timecode_coder::ltc_decoder::LtcDecoder` for signed 16-bit samples.
#[verifier::external_body]
pub struct LtcReader {
    decoder: LtcDecoder<i16>,
}

/// The sampling rate that a reader was made for.
pub uninterp spec fn sampling_rate(reader: LtcReader) -> u32;

/// The samples that a reader was given, in order.
pub uninterp spec fn samples_heard(reader: LtcReader) -> Seq<i16>;

/// What a decoder for `rate` reports on the last of `samples` after it was given the others.
pub uninterp spec fn frame_heard(rate: u32, samples: Seq<i16>) -> Option<TimecodeFrame>;

/// How many samples a reader counts without its counters running over.
pub open spec fn max_samples() -> nat {
    (usize::MAX / 5) as nat
}

impl LtcReader {
    /// Calls `LtcDecoder::new`, which makes a decoder that was given no sample yet.
    #[verifier::external_body]
    pub(crate) fn new(rate: u32) -> (reader: LtcReader)
        ensures
            sampling_rate(reader) == rate,
            samples_heard(reader) == Seq::<i16>::empty(),
    {
        LtcReader { decoder: LtcDecoder::new(rate) }
    }

    /// Calls `LtcDecoder::get_timecode_frame`, which takes one more sample and reports a frame
    /// where that sample completes one. The report depends on the sampling rate and on all
    /// samples given so far, and on nothing else.
    #[verifier::external_body]
    pub(crate) fn get_timecode_frame(&mut self, sample: i16) -> (frame: Option<TimecodeFrame>)
        requires
            samples_heard(*old(self)).len() < max_samples(),
        ensures
            sampling_rate(*final(self)) == sampling_rate(*old(self)),
            samples_heard(*final(self)) == samples_heard(*old(self)).push(sample),
            frame == frame_heard(
                sampling_rate(*old(self)),
                samples_heard(*old(self)).push(sample),
            ),
    {
        self.decoder.get_timecode_frame(sample).map(|frame| TimecodeFrame {
            hours: frame.hours,
            minutes: frame.minutes,
            seconds: frame.seconds,
            frames: frame.frames,
            frames_per_second: match frame.frames_per_second {
                timecode_coder::FramesPerSecond::Unknown => FramesPerSecond::Unknown,
                timecode_coder::FramesPerSecond::TwentyFour => FramesPerSecond::TwentyFour,
                timecode_coder::FramesPerSecond::TwentyFive => FramesPerSecond::TwentyFive,
                timecode_coder::FramesPerSecond::Thirty => FramesPerSecond::Thirty,
            },
        })
    }
}

} // verus!
