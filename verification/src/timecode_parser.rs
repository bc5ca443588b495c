//! Timecode parsing and event detection.

use crate::config::{timecode_of, Timecode, TimecodeFault};
use crate::decimal::{
    decimal, digit, law_two_digits_are_read_back, lemma_decimal_digits, two_digit_text, two_digits,
};
use crate::float::{cast_i16, of_nat, product, single, Float32, Value};
use crate::ltc::{
    frame_heard, max_samples, sampling_rate, samples_heard, FramesPerSecond, LtcReader,
    TimecodeFrame,
};
use crate::text::{lemma_char_index, pieces};
use std::collections::VecDeque;
use vstd::prelude::*;
use vstd::string::StringExecFns;

verus! {

/// A timecode position.
#[derive(Debug, Clone, Copy, PartialEq, Eq, Structural)]
pub struct TimecodePosition {
    /// The underlying LTC timecode frame.
    pub frame: TimecodeFrame,
    /// The framerate of this timecode.
    pub fps: u8,
    /// Absolute frame position on the timecode timeline.
    pub total_frames: u32,
}

/// The framerate that a signal reports, or the fallback where it reports none.
pub open spec fn resolved_fps(reported: FramesPerSecond, fallback_fps: u8) -> u8 {
    match reported {
        FramesPerSecond::TwentyFour => 24,
        FramesPerSecond::TwentyFive => 25,
        FramesPerSecond::Thirty => 30,
        FramesPerSecond::Unknown => fallback_fps,
    }
}

/// The position of a frame.
pub open spec fn position_of(frame: TimecodeFrame, fallback_fps: u8) -> TimecodePosition {
    let fps = resolved_fps(frame.frames_per_second, fallback_fps);
    TimecodePosition {
        frame,
        fps,
        total_frames: ((frame.hours * 3600 + frame.minutes * 60 + frame.seconds) * fps
            + frame.frames) as u32,
    }
}

impl TimecodePosition {
    /// Resolves a raw [`TimecodeFrame`], substituting `fallback_fps` when the
    /// signal reports [`FramesPerSecond::Unknown`].
    pub fn new(frame: TimecodeFrame, fallback_fps: u8) -> (position: Self)
        ensures
            position == position_of(frame, fallback_fps),
            position.total_frames == (frame.hours * 3600 + frame.minutes * 60 + frame.seconds)
                * position.fps + frame.frames,
    {
        let fps: u8 = match frame.frames_per_second {
            FramesPerSecond::TwentyFour => 24,
            FramesPerSecond::TwentyFive => 25,
            FramesPerSecond::Thirty => 30,
            FramesPerSecond::Unknown => fallback_fps,
        };
        let seconds: u32 = frame.hours as u32 * 3600 + frame.minutes as u32 * 60
            + frame.seconds as u32;
        assert(0 <= seconds * fps <= 933_555 * 255) by (nonlinear_arith)
            requires
                0 <= seconds <= 933_555,
                0 <= fps <= 255,
        ;
        let total_frames: u32 = seconds * fps as u32 + frame.frames as u32;
        Self { frame, fps, total_frames }
    }

    /// The position as `hh:mm:ss:ff`.
    pub open spec fn text(self) -> Seq<char> {
        two_digits(self.frame.hours as nat) + ":"@ + two_digits(self.frame.minutes as nat) + ":"@
            + two_digits(self.frame.seconds as nat) + ":"@ + two_digits(self.frame.frames as nat)
    }

    /// The position as `hh:mm:ss:ff`.
    pub fn to_text(&self) -> (text: String)
        ensures
            text@ == self.text(),
    {
        let mut text = two_digit_text(self.frame.hours as u64);
        text.append(":");
        text.append(two_digit_text(self.frame.minutes as u64).as_str());
        text.append(":");
        text.append(two_digit_text(self.frame.seconds as u64).as_str());
        text.append(":");
        text.append(two_digit_text(self.frame.frames as u64).as_str());
        text
    }
}

/// A timecode state change event.
#[derive(Debug, Clone, Copy, PartialEq, Eq, Structural)]
pub enum TimecodeEvent {
    /// Timecode playing with frame.
    Playing(TimecodePosition),
    /// Timecode paused at frame.
    Paused(TimecodePosition),
}

/// Whether timecode is running. Times are nanoseconds since any fixed moment.
#[derive(Debug, Clone, Copy, PartialEq, Eq, Structural)]
pub enum PlayState {
    Idle,
    Playing { tc: TimecodeFrame, received_at: u128 },
    Paused { tc: TimecodeFrame },
}

/// The frame that was read last.
pub open spec fn last_frame(state: PlayState) -> Option<TimecodeFrame> {
    match state {
        PlayState::Playing { tc, .. } => Some(tc),
        PlayState::Paused { tc } => Some(tc),
        PlayState::Idle => None,
    }
}

/// The level that an audio sample has for the decoder.
pub open spec fn sample_level(sample: Value) -> i16 {
    cast_i16(product(single(), sample, of_nat(single(), 32767)))
}

/// The levels of a row of audio samples.
pub open spec fn sample_levels(samples: Seq<Float32>) -> Seq<i16> {
    samples.map_values(|sample: Float32| sample_level(sample@))
}

/// What a parser knows.
pub struct ParserModel {
    pub rate: u32,
    pub heard: Seq<i16>,
    pub state: PlayState,
    pub pending: Seq<TimecodeEvent>,
    pub pause_timeout: nat,
    pub fallback_fps: u8,
}

/// A frame that was read: one that was read last already changes nothing, any other makes
/// timecode play and queues an event.
pub open spec fn after_frame(model: ParserModel, tc: TimecodeFrame, now: u128) -> ParserModel {
    if last_frame(model.state) == Some(tc) {
        model
    } else {
        ParserModel {
            state: PlayState::Playing { tc, received_at: now },
            pending: model.pending.push(
                TimecodeEvent::Playing(position_of(tc, model.fallback_fps)),
            ),
            ..model
        }
    }
}

/// A sample that was given to the decoder.
pub open spec fn after_level(model: ParserModel, level: i16, now: u128) -> ParserModel {
    let heard = model.heard.push(level);
    let listening = ParserModel { heard, ..model };
    match frame_heard(model.rate, heard) {
        Some(tc) => after_frame(listening, tc, now),
        None => listening,
    }
}

/// A row of samples that was given to the decoder.
pub open spec fn after_levels(model: ParserModel, levels: Seq<i16>, now: u128) -> ParserModel
    decreases levels.len(),
{
    if levels.len() == 0 {
        model
    } else {
        after_level(after_levels(model, levels.drop_last(), now), levels.last(), now)
    }
}

/// The pause that is due, where timecode plays and no frame came for the pause timeout.
pub open spec fn due_pause(model: ParserModel, now: u128) -> Option<TimecodeFrame> {
    match model.state {
        PlayState::Playing { tc, received_at } => if received_at + model.pause_timeout <= now
            || model.pause_timeout == 0 {
            Some(tc)
        } else {
            None
        },
        _ => None,
    }
}

/// The next event and what the parser knows once it is taken.
pub open spec fn after_next(model: ParserModel, now: u128) -> (
    Option<TimecodeEvent>,
    ParserModel,
) {
    if model.pending.len() > 0 {
        (Some(model.pending[0]), ParserModel { pending: model.pending.drop_first(), ..model })
    } else {
        match due_pause(model, now) {
            Some(tc) => (
                Some(TimecodeEvent::Paused(position_of(tc, model.fallback_fps))),
                ParserModel { state: PlayState::Paused { tc }, ..model },
            ),
            None => (None, model),
        }
    }
}

/// A parser that has heard nothing yet.
pub open spec fn new_parser(rate: u32, pause_timeout_ms: u64, fallback_fps: u8) -> ParserModel {
    ParserModel {
        rate,
        heard: seq![],
        state: PlayState::Idle,
        pending: seq![],
        pause_timeout: (pause_timeout_ms * 1_000_000) as nat,
        fallback_fps,
    }
}

/// A parser whose decoder was replaced by one that has heard nothing yet.
pub open spec fn restarted(model: ParserModel) -> ParserModel {
    ParserModel { heard: seq![], ..model }
}

/// An LTC audio decoder that detects timecode playback events.
pub struct TimecodeParser {
    decoder: LtcReader,
    /// The sampling rate that the decoder was made for.
    audio_sample_rate: u32,
    state: PlayState,
    /// Nanoseconds without a new frame before playback is considered paused.
    pause_timeout: u128,
    pending_events: VecDeque<TimecodeEvent>,
    /// Framerate used when the LTC signal reports `Unknown`.
    fallback_fps: u8,
    /// How many samples the decoder was given.
    fed: usize,
}

impl View for TimecodeParser {
    type V = ParserModel;

    closed spec fn view(&self) -> ParserModel {
        ParserModel {
            rate: sampling_rate(self.decoder),
            heard: samples_heard(self.decoder),
            state: self.state,
            pending: self.pending_events@,
            pause_timeout: self.pause_timeout as nat,
            fallback_fps: self.fallback_fps,
        }
    }
}

impl TimecodeParser {
    /// The parser counts the samples that its decoder was given, and knows their rate.
    pub closed spec fn wf(self) -> bool {
        &&& self.fed == samples_heard(self.decoder).len()
        &&& self.audio_sample_rate == sampling_rate(self.decoder)
    }

    /// `now` is to be in nanoseconds, as everywhere, and `pause_timeout_ms` in milliseconds.
    pub fn new(audio_sample_rate: u32, pause_timeout_ms: u64, fallback_fps: u8) -> (parser: Self)
        ensures
            parser.wf(),
            parser@ == (ParserModel {
                rate: audio_sample_rate,
                heard: seq![],
                state: PlayState::Idle,
                pending: seq![],
                pause_timeout: (pause_timeout_ms * 1_000_000) as nat,
                fallback_fps,
            }),
            parser@ == new_parser(audio_sample_rate, pause_timeout_ms, fallback_fps),
    {
        Self {
            decoder: LtcReader::new(audio_sample_rate),
            audio_sample_rate,
            state: PlayState::Idle,
            pause_timeout: pause_timeout_ms as u128 * 1_000_000,
            pending_events: VecDeque::new(),
            fallback_fps,
            fed: 0,
        }
    }

    /// How many samples the decoder was given.
    pub fn samples_fed(&self) -> (fed: usize)
        requires
            self.wf(),
        ensures
            fed == self@.heard.len(),
    {
        self.fed
    }

    /// Makes sure that `more` samples can be pushed. Where the decoder could not count that many
    /// further samples, a new one takes its place, and has to find the signal again.
    pub fn make_room(&mut self, more: usize)
        requires
            old(self).wf(),
            more <= max_samples(),
        ensures
            final(self).wf(),
            final(self)@.heard.len() + more <= max_samples(),
            final(self)@ == if old(self)@.heard.len() + more <= max_samples() {
                old(self)@
            } else {
                restarted(old(self)@)
            },
    {
        let limit: usize = usize::MAX / 5;
        if self.fed > limit || limit - self.fed < more {
            self.decoder = LtcReader::new(self.audio_sample_rate);
            self.fed = 0;
        }
    }

    /// Takes note of a frame that the decoder read at `now`.
    pub fn receive(&mut self, tc: TimecodeFrame, now: u128)
        requires
            old(self).wf(),
        ensures
            final(self).wf(),
            final(self)@ == after_frame(old(self)@, tc, now),
    {
        let last_tc: Option<TimecodeFrame> = match self.state {
            PlayState::Playing { tc, .. } => Some(tc),
            PlayState::Paused { tc } => Some(tc),
            PlayState::Idle => None,
        };
        let repeated: bool = match last_tc {
            Some(last) => last == tc,
            None => false,
        };
        if repeated {
            return ;
        }
        self.state = PlayState::Playing { tc, received_at: now };
        let position = TimecodePosition::new(tc, self.fallback_fps);
        self.pending_events.push_back(TimecodeEvent::Playing(position));
    }

    /// Feeds a chunk of mono PCM audio into the LTC decoder.
    ///
    /// `samples` must be de-interleaved to a single channel and normalised to `[-1.0, 1.0]`.
    /// Decoded timecode frames are queued internally and returned by [`next`](Self::next).
    /// `now` records the arrival time of this chunk for pause-timeout detection.
    pub fn push(&mut self, samples: &[Float32], now: u128)
        requires
            old(self).wf(),
            old(self)@.heard.len() + samples@.len() <= max_samples(),
        ensures
            final(self).wf(),
            final(self)@ == after_levels(old(self)@, sample_levels(samples@), now),
    {
        let full = Float32::from_u32(32767);
        let ghost levels = sample_levels(samples@);
        let mut i: usize = 0;
        proof {
            assert(levels.take(0) =~= seq![]);
        }
        while i < samples.len()
            invariant
                i <= samples@.len(),
                self.wf(),
                full@ == of_nat(single(), 32767),
                levels == sample_levels(samples@),
                self@ == after_levels(old(self)@, levels.take(i as int), now),
                self@.heard.len() == old(self)@.heard.len() + i,
                old(self)@.heard.len() + samples@.len() <= max_samples(),
            decreases samples.len() - i,
        {
            let sample: i16 = samples[i].times(&full).to_i16();
            proof {
                assert(levels.take(i + 1).drop_last() =~= levels.take(i as int));
                assert(levels.take(i + 1).last() == sample);
            }
            let ghost before = self@;
            let frame = self.decoder.get_timecode_frame(sample);
            self.fed = self.fed + 1;
            assert(self@ == (ParserModel { heard: before.heard.push(sample), ..before }));
            match frame {
                Some(tc) => {
                    self.receive(tc, now);
                },
                None => {},
            }
            i = i + 1;
        }
        proof {
            assert(levels.take(i as int) =~= levels);
        }
    }

    /// Returns the next decoded timecode event, or `None` if none are pending.
    ///
    /// When the event queue is empty, checks whether the pause timeout has elapsed since the
    /// last decoded frame and emits [`TimecodeEvent::Paused`] if so. Pass the same `now` as
    /// the preceding [`push`](Self::push) call to ensure consistent timeout evaluation within
    /// a single poll cycle.
    pub fn next(&mut self, now: u128) -> (event: Option<TimecodeEvent>)
        requires
            old(self).wf(),
        ensures
            final(self).wf(),
            (event, final(self)@) == after_next(old(self)@, now),
    {
        match self.pending_events.pop_front() {
            Some(event) => Some(event),
            None => self.check_timeout(now),
        }
    }

    /// Emits a pause where one is due.
    fn check_timeout(&mut self, now: u128) -> (event: Option<TimecodeEvent>)
        requires
            old(self).wf(),
            old(self)@.pending.len() == 0,
        ensures
            final(self).wf(),
            (event, final(self)@) == after_next(old(self)@, now),
    {
        match self.state {
            PlayState::Playing { tc, received_at } => {
                if now.saturating_sub(received_at) >= self.pause_timeout {
                    let position = TimecodePosition::new(tc, self.fallback_fps);
                    self.state = PlayState::Paused { tc };
                    return Some(TimecodeEvent::Paused(position));
                }
            },
            _ => {},
        }
        None
    }
}

/// With a fallback that is not zero, no position has a frame rate of zero.
pub proof fn law_rate_is_never_zero(frame: TimecodeFrame, fallback_fps: u8)
    requires
        fallback_fps > 0,
    ensures
        position_of(frame, fallback_fps).fps > 0,
{
}

/// Once a pause was reported, none is reported again until a new frame is read.
pub proof fn law_pause_is_reported_once(model: ParserModel, now: u128, later: u128)
    requires
        after_next(model, now).0 matches Some(TimecodeEvent::Paused(_)),
        model.pending.len() == 0,
    ensures
        after_next(after_next(model, now).1, later) == (
            None::<TimecodeEvent>,
            after_next(model, now).1,
        ),
{
}

/// While the queue is empty, a pause is reported exactly when timecode was playing and no new
/// frame came for the pause timeout.
pub proof fn law_pause_waits_for_the_timeout(
    model: ParserModel,
    tc: TimecodeFrame,
    received_at: u128,
    now: u128,
)
    requires
        model.pending.len() == 0,
        model.state == (PlayState::Playing { tc, received_at }),
        received_at <= now,
    ensures
        after_next(model, now).0 == if now - received_at >= model.pause_timeout {
            Some(TimecodeEvent::Paused(position_of(tc, model.fallback_fps)))
        } else {
            None
        },
{
}

/// Whatever was the case before, the time for a pause runs from the last new frame: once a frame
/// other than the one before was read at `received_at`, and the queue was taken, no pause is
/// reported before the pause timeout has passed since, and one at that frame is from then on. A
/// timeout of zero has always passed.
pub proof fn law_new_frame_puts_off_the_pause(
    model: ParserModel,
    tc: TimecodeFrame,
    received_at: u128,
    now: u128,
)
    requires
        last_frame(model.state) != Some(tc),
    ensures
        ({
            let taken = ParserModel {
                pending: seq![],
                ..after_frame(model, tc, received_at)
            };
            match after_next(taken, now).0 {
                None => now < received_at + model.pause_timeout && model.pause_timeout > 0,
                Some(TimecodeEvent::Playing(_)) => false,
                Some(TimecodeEvent::Paused(position)) => (now >= received_at + model.pause_timeout
                    || model.pause_timeout == 0) && position == position_of(
                    tc,
                    model.fallback_fps,
                ),
            }
        }),
{
}

/// A new parser waits for timecode, and has nothing to report, whatever the time. Once a frame was
/// read and reported, a pause is reported as soon as the milliseconds of the pause timeout have
/// passed since. Times are in nanoseconds.
pub proof fn law_new_parser_waits_for_timecode(
    rate: u32,
    pause_timeout_ms: u64,
    fallback_fps: u8,
    tc: TimecodeFrame,
    received_at: u128,
    now: u128,
)
    requires
        received_at <= now,
    ensures
        ({
            let new = new_parser(rate, pause_timeout_ms, fallback_fps);
            let played = after_frame(new, tc, received_at);
            let (first, taken) = after_next(played, received_at);
            let position = position_of(tc, fallback_fps);
            &&& new.rate == rate && new.heard.len() == 0
            &&& after_next(new, now) == (None::<TimecodeEvent>, new)
            &&& first == Some(TimecodeEvent::Playing(position))
            &&& after_next(taken, now).0 == if now - received_at >= pause_timeout_ms * 1_000_000 {
                Some(TimecodeEvent::Paused(position))
            } else {
                None
            }
        }),
{
    let new = new_parser(rate, pause_timeout_ms, fallback_fps);
    let played = after_frame(new, tc, received_at);
    assert(played.pending.drop_first() =~= seq![]);
}

/// A frame other than the one before is reported once, as playing, behind the events that wait.
/// It is the one that the next frame is held against, also after a pause.
pub proof fn law_new_frame_is_reported(model: ParserModel, tc: TimecodeFrame, now: u128)
    requires
        last_frame(model.state) != Some(tc),
    ensures
        ({
            let after = after_frame(model, tc, now);
            &&& after.pending.len() == model.pending.len() + 1
            &&& after.pending.drop_last() == model.pending
            &&& after.pending.last() matches TimecodeEvent::Playing(position) && position
                == position_of(tc, model.fallback_fps)
            &&& last_frame(after.state) == Some(tc)
            &&& after.pause_timeout == model.pause_timeout
            &&& after.fallback_fps == model.fallback_fps
        }),
{
    assert(after_frame(model, tc, now).pending.drop_last() =~= model.pending);
}

/// A position stands at as many frames as its hours, minutes and seconds have at its frame rate,
/// and its frames in addition. Its frame rate is the one that the signal reports, or the fallback
/// where the signal reports none.
pub proof fn law_position_counts_frames(frame: TimecodeFrame, fallback_fps: u8)
    ensures
        ({
            let position = position_of(frame, fallback_fps);
            &&& position.frame == frame
            &&& position.total_frames == (frame.hours * 3600 + frame.minutes * 60 + frame.seconds)
                * position.fps + frame.frames
            &&& frame.frames_per_second is TwentyFour ==> position.fps == 24
            &&& frame.frames_per_second is TwentyFive ==> position.fps == 25
            &&& frame.frames_per_second is Thirty ==> position.fps == 30
            &&& frame.frames_per_second is Unknown ==> position.fps == fallback_fps
        }),
{
    let fps = position_of(frame, fallback_fps).fps;
    let seconds = frame.hours * 3600 + frame.minutes * 60 + frame.seconds;
    assert(0 <= seconds * fps <= 933_555 * 255) by (nonlinear_arith)
        requires
            0 <= seconds <= 933_555,
            0 <= fps <= 255,
    ;
}

/// A sample that completes no frame changes nothing but what was heard. One that completes a frame
/// has that frame read when the sample arrives: it changes nothing if it is the one before, and
/// otherwise plays and puts off the pause.
pub proof fn law_frames_are_read_as_they_are_heard(
    model: ParserModel,
    levels: Seq<i16>,
    level: i16,
    now: u128,
)
    ensures
        ({
            let before = after_levels(model, levels, now);
            let after = after_levels(model, levels.push(level), now);
            &&& after.heard == model.heard + levels.push(level)
            &&& match frame_heard(model.rate, model.heard + levels.push(level)) {
                None => after.state == before.state && after.pending == before.pending,
                Some(tc) => if last_frame(before.state) == Some(tc) {
                    after.state == before.state && after.pending == before.pending
                } else {
                    &&& after.state == (PlayState::Playing { tc, received_at: now })
                    &&& after.pending == before.pending.push(
                        TimecodeEvent::Playing(position_of(tc, model.fallback_fps)),
                    )
                },
            }
        }),
{
    law_every_sample_is_heard(model, levels, now);
    law_every_sample_is_heard(model, levels.push(level), now);
    lemma_setup_is_kept(model, levels, now);
    assert(levels.push(level).drop_last() =~= levels);
    assert((model.heard + levels).push(level) =~= model.heard + levels.push(level));
}

proof fn lemma_setup_is_kept(model: ParserModel, levels: Seq<i16>, now: u128)
    ensures
        after_levels(model, levels, now).fallback_fps == model.fallback_fps,
        after_levels(model, levels, now).pause_timeout == model.pause_timeout,
    decreases levels.len(),
{
    if levels.len() > 0 {
        lemma_setup_is_kept(model, levels.drop_last(), now);
    }
}

/// A frame that is read again right after itself changes nothing, also after a pause.
pub proof fn law_repeated_frame_is_silent(
    model: ParserModel,
    tc: TimecodeFrame,
    now: u128,
    later: u128,
)
    ensures
        ({
            let once = after_frame(model, tc, now);
            let paused = after_next(ParserModel { pending: seq![], ..once }, later).1;
            &&& after_frame(once, tc, later) == once
            &&& after_frame(paused, tc, later) == paused
        }),
{
}

/// It makes no difference how audio is cut into chunks that arrive at the same time.
pub proof fn law_chunks_make_no_difference(
    model: ParserModel,
    first: Seq<i16>,
    second: Seq<i16>,
    now: u128,
)
    ensures
        after_levels(after_levels(model, first, now), second, now) == after_levels(
            model,
            first + second,
            now,
        ),
    decreases second.len(),
{
    if second.len() == 0 {
        assert(first + second =~= first);
    } else {
        assert((first + second).drop_last() =~= first + second.drop_last());
        law_chunks_make_no_difference(model, first, second.drop_last(), now);
    }
}

/// Audio only adds events of playing timecode to the queue, behind those that wait there.
pub proof fn law_events_keep_their_order(model: ParserModel, levels: Seq<i16>, now: u128)
    ensures
        ({
            let after = after_levels(model, levels, now);
            &&& model.pending.len() <= after.pending.len()
            &&& after.pending.take(model.pending.len() as int) == model.pending
            &&& forall|i: int|
                model.pending.len() <= i < after.pending.len()
                    ==> #[trigger] after.pending[i] is Playing
        }),
    decreases levels.len(),
{
    let n = model.pending.len() as int;
    if levels.len() == 0 {
        assert(model.pending.take(n) =~= model.pending);
    } else {
        law_events_keep_their_order(model, levels.drop_last(), now);
        let before = after_levels(model, levels.drop_last(), now);
        let after = after_levels(model, levels, now);
        if after.pending.len() > before.pending.len() {
            assert(after.pending.take(n) =~= before.pending.take(n));
        }
    }
}

/// The events that wait in the queue are handed out first, in their order, whatever the time.
pub proof fn law_queue_is_handed_out_in_order(model: ParserModel, now: u128)
    requires
        model.pending.len() > 0,
    ensures
        after_next(model, now).0 == Some(model.pending[0]),
        after_next(model, now).1.pending == model.pending.skip(1),
        after_next(model, now).1.state == model.state,
{
    assert(model.pending.drop_first() =~= model.pending.skip(1));
}

/// What has been heard are all samples, in order.
pub proof fn law_every_sample_is_heard(model: ParserModel, levels: Seq<i16>, now: u128)
    ensures
        after_levels(model, levels, now).heard == model.heard + levels,
        after_levels(model, levels, now).rate == model.rate,
    decreases levels.len(),
{
    if levels.len() == 0 {
        assert(model.heard + levels =~= model.heard);
    } else {
        law_every_sample_is_heard(model, levels.drop_last(), now);
        assert(model.heard + levels =~= (model.heard + levels.drop_last()).push(levels.last()));
    }
}

/// The frame of an event.
pub open spec fn frame_in(event: TimecodeEvent) -> TimecodeFrame {
    match event {
        TimecodeEvent::Playing(position) => position.frame,
        TimecodeEvent::Paused(position) => position.frame,
    }
}

/// An event may directly follow another one: a pause follows playing at the same position, and
/// playing follows an event with another frame.
pub open spec fn may_follow(earlier: TimecodeEvent, later: TimecodeEvent) -> bool {
    match later {
        TimecodeEvent::Paused(position) => earlier == TimecodeEvent::Playing(position),
        TimecodeEvent::Playing(position) => frame_in(earlier) != position.frame,
    }
}

/// A row of events as timecode gives them: it does not begin with a pause, and every event may
/// follow the one before it.
pub open spec fn is_event_row(events: Seq<TimecodeEvent>) -> bool {
    &&& events.len() > 0 ==> events[0] is Playing
    &&& forall|i: int, j: int|
        0 <= i && i + 1 == j && j < events.len() ==> may_follow(
            #[trigger] events[i],
            #[trigger] events[j],
        )
}

/// One use of a parser.
pub enum ParserStep {
    Receive { tc: TimecodeFrame, now: u128 },
    Push { levels: Seq<i16>, now: u128 },
    MakeRoom { restart: bool },
    Next { now: u128 },
}

/// What a parser hands out at a step, and what it knows after it.
pub open spec fn after_step(model: ParserModel, step: ParserStep) -> (
    Option<TimecodeEvent>,
    ParserModel,
) {
    match step {
        ParserStep::Receive { tc, now } => (None, after_frame(model, tc, now)),
        ParserStep::Push { levels, now } => (None, after_levels(model, levels, now)),
        ParserStep::MakeRoom { restart } => (
            None,
            if restart {
                restarted(model)
            } else {
                model
            },
        ),
        ParserStep::Next { now } => after_next(model, now),
    }
}

/// What a parser knows after a row of steps.
pub open spec fn after_steps(model: ParserModel, steps: Seq<ParserStep>) -> ParserModel
    decreases steps.len(),
{
    if steps.len() == 0 {
        model
    } else {
        after_step(after_steps(model, steps.drop_last()), steps.last()).1
    }
}

/// The events that a parser hands out at a row of steps.
pub open spec fn events_of(model: ParserModel, steps: Seq<ParserStep>) -> Seq<TimecodeEvent>
    decreases steps.len(),
{
    if steps.len() == 0 {
        seq![]
    } else {
        let before = events_of(model, steps.drop_last());
        match after_step(after_steps(model, steps.drop_last()), steps.last()).0 {
            Some(event) => before.push(event),
            None => before,
        }
    }
}

/// The events that were handed out and those that wait are a row, and the state of the parser is
/// what the last of them says.
spec fn is_in_step(model: ParserModel, given: Seq<TimecodeEvent>) -> bool {
    let all = given + model.pending;
    &&& is_event_row(all)
    &&& match model.state {
        PlayState::Idle => all.len() == 0,
        PlayState::Playing { tc, .. } => all.len() > 0 && all.last() == TimecodeEvent::Playing(
            position_of(tc, model.fallback_fps),
        ),
        PlayState::Paused { tc } => all.len() > 0 && all.last() == TimecodeEvent::Paused(
            position_of(tc, model.fallback_fps),
        ),
    }
}

proof fn lemma_row_grows(events: Seq<TimecodeEvent>, event: TimecodeEvent)
    requires
        is_event_row(events),
        if events.len() > 0 {
            may_follow(events.last(), event)
        } else {
            event is Playing
        },
    ensures
        is_event_row(events.push(event)),
{
    let row = events.push(event);
    assert forall|i: int, j: int| 0 <= i && i + 1 == j && j < row.len() implies may_follow(
        #[trigger] row[i],
        #[trigger] row[j],
    ) by {
        assert(row[i] == events[i]);
        if j < events.len() {
            assert(row[j] == events[j]);
        }
    }
}

proof fn lemma_frame_in_step(
    model: ParserModel,
    given: Seq<TimecodeEvent>,
    tc: TimecodeFrame,
    now: u128,
)
    requires
        is_in_step(model, given),
    ensures
        is_in_step(after_frame(model, tc, now), given),
{
    if last_frame(model.state) != Some(tc) {
        let event = TimecodeEvent::Playing(position_of(tc, model.fallback_fps));
        lemma_row_grows(given + model.pending, event);
        assert((given + model.pending).push(event) =~= given + model.pending.push(event));
    }
}

proof fn lemma_levels_in_step(
    model: ParserModel,
    given: Seq<TimecodeEvent>,
    levels: Seq<i16>,
    now: u128,
)
    requires
        is_in_step(model, given),
    ensures
        is_in_step(after_levels(model, levels, now), given),
    decreases levels.len(),
{
    if levels.len() > 0 {
        lemma_levels_in_step(model, given, levels.drop_last(), now);
        let before = after_levels(model, levels.drop_last(), now);
        let heard = before.heard.push(levels.last());
        let listening = ParserModel { heard, ..before };
        match frame_heard(before.rate, heard) {
            Some(tc) => {
                lemma_frame_in_step(listening, given, tc, now);
            },
            None => {},
        }
    }
}

proof fn lemma_steps(model: ParserModel, steps: Seq<ParserStep>)
    requires
        model.state is Idle,
        model.pending.len() == 0,
    ensures
        is_in_step(after_steps(model, steps), events_of(model, steps)),
    decreases steps.len(),
{
    if steps.len() > 0 {
        let before = after_steps(model, steps.drop_last());
        let given = events_of(model, steps.drop_last());
        lemma_steps(model, steps.drop_last());
        match steps.last() {
            ParserStep::Receive { tc, now } => {
                lemma_frame_in_step(before, given, tc, now);
            },
            ParserStep::Push { levels, now } => {
                lemma_levels_in_step(before, given, levels, now);
            },
            ParserStep::MakeRoom { .. } => {},
            ParserStep::Next { now } => {
                let (event, after) = after_next(before, now);
                if before.pending.len() > 0 {
                    assert(given.push(before.pending[0]) + before.pending.drop_first() =~= given
                        + before.pending);
                } else {
                    assert(given + before.pending =~= given);
                    match event {
                        Some(event) => {
                            lemma_row_grows(given, event);
                            assert(given.push(event) + after.pending =~= given.push(event));
                        },
                        None => {},
                    }
                }
            },
        }
    }
}

/// However a new parser is used, the events that it hands out never begin with a pause. Every
/// pause directly follows playing at the same position, and playing is only reported where the
/// frame is another one than that of the event before.
pub proof fn law_events_alternate(model: ParserModel, steps: Seq<ParserStep>)
    requires
        model.state is Idle,
        model.pending.len() == 0,
    ensures
        is_event_row(events_of(model, steps)),
{
    lemma_steps(model, steps);
    let given = events_of(model, steps);
    let all = given + after_steps(model, steps).pending;
    assert forall|i: int, j: int| 0 <= i && i + 1 == j && j < given.len() implies may_follow(
        #[trigger] given[i],
        #[trigger] given[j],
    ) by {
        assert(all[i] == given[i] && all[j] == given[j]);
    }
    if given.len() > 0 {
        assert(all[0] == given[0]);
    }
}

proof fn lemma_digits_hold_no_colon(n: nat)
    ensures
        forall|i: int| 0 <= i < two_digits(n).len() ==> #[trigger] two_digits(n)[i] != ':',
{
    lemma_decimal_digits(n);
}

/// The text of a position is read as the timecode of its frame, where that is a timecode: one
/// with fewer than 60 minutes and fewer than 60 seconds.
pub proof fn law_position_is_read_back(position: TimecodePosition)
    requires
        position.frame.minutes < 60,
        position.frame.seconds < 60,
    ensures
        timecode_of(pieces(position.text(), ':', 0)) == Ok::<_, TimecodeFault>(
            Timecode {
                hours: position.frame.hours,
                minutes: position.frame.minutes,
                seconds: position.frame.seconds,
                frames: position.frame.frames,
            },
        ),
{
    reveal_strlit(":");
    let h = two_digits(position.frame.hours as nat);
    let m = two_digits(position.frame.minutes as nat);
    let s = two_digits(position.frame.seconds as nat);
    let f = two_digits(position.frame.frames as nat);
    let text = position.text();
    let a = h.len() as int;
    let b = a + 1 + m.len();
    let c = b + 1 + s.len();
    let d = c + 1 + f.len();
    lemma_digits_hold_no_colon(position.frame.hours as nat);
    lemma_digits_hold_no_colon(position.frame.minutes as nat);
    lemma_digits_hold_no_colon(position.frame.seconds as nat);
    lemma_digits_hold_no_colon(position.frame.frames as nat);
    assert(text.len() == d);
    assert(text.subrange(0, a) =~= h);
    assert(text.subrange(a + 1, b) =~= m);
    assert(text.subrange(b + 1, c) =~= s);
    assert(text.subrange(c + 1, d) =~= f);
    assert forall|k: int| 0 <= k < d && k != a && k != b && k != c implies text[k] != ':' by {
        if k < a {
            assert(text[k] == h[k]);
        } else if k < b {
            assert(text[k] == m[k - a - 1]);
        } else if k < c {
            assert(text[k] == s[k - b - 1]);
        } else {
            assert(text[k] == f[k - c - 1]);
        }
    }
    lemma_char_index(text, ':', 0, a);
    lemma_char_index(text, ':', a + 1, b);
    lemma_char_index(text, ':', b + 1, c);
    lemma_char_index(text, ':', c + 1, d);
    assert(pieces(text, ':', c + 1) == seq![f]);
    assert(pieces(text, ':', b + 1) == seq![s] + seq![f]);
    assert(pieces(text, ':', a + 1) == seq![m] + (seq![s] + seq![f]));
    assert(pieces(text, ':', 0) == seq![h] + (seq![m] + (seq![s] + seq![f])));
    let parts = pieces(text, ':', 0);
    assert(parts.len() == 4);
    assert(parts[0] == h && parts[1] == m && parts[2] == s && parts[3] == f);
    law_two_digits_are_read_back(position.frame.hours as nat, 255);
    law_two_digits_are_read_back(position.frame.minutes as nat, 255);
    law_two_digits_are_read_back(position.frame.seconds as nat, 255);
    law_two_digits_are_read_back(position.frame.frames as nat, 255);
}

/// The text of a position has two digits for each of its numbers, where they are below 100, and a
/// colon between one number and the next.
pub proof fn law_position_text_has_two_digits(position: TimecodePosition)
    requires
        position.frame.hours < 100,
        position.frame.minutes < 100,
        position.frame.seconds < 100,
        position.frame.frames < 100,
    ensures
        position.text().len() == 11,
        position.text()[2] == ':' && position.text()[5] == ':' && position.text()[8] == ':',
        position.text()[0] == digit(position.frame.hours as nat / 10),
        position.text()[1] == digit(position.frame.hours as nat % 10),
        position.text()[3] == digit(position.frame.minutes as nat / 10),
        position.text()[4] == digit(position.frame.minutes as nat % 10),
        position.text()[6] == digit(position.frame.seconds as nat / 10),
        position.text()[7] == digit(position.frame.seconds as nat % 10),
        position.text()[9] == digit(position.frame.frames as nat / 10),
        position.text()[10] == digit(position.frame.frames as nat % 10),
{
    reveal_strlit(":");
    lemma_two_digits(position.frame.hours as nat);
    lemma_two_digits(position.frame.minutes as nat);
    lemma_two_digits(position.frame.seconds as nat);
    lemma_two_digits(position.frame.frames as nat);
}

proof fn lemma_two_digits(n: nat)
    requires
        n < 100,
    ensures
        two_digits(n) == seq![digit(n / 10), digit(n % 10)],
{
    reveal_with_fuel(decimal, 3);
    if n < 10 {
        assert(digit(0) == '0');
        assert(two_digits(n) =~= seq![digit(n / 10), digit(n % 10)]);
    } else {
        assert(n / 10 < 10);
        assert(two_digits(n) =~= seq![digit(n / 10), digit(n % 10)]);
    }
}

/// A new decoder in a parser has heard nothing, and nothing else is changed: what was read is not
/// forgotten, and what waits is not lost.
pub proof fn law_restart_forgets_only_what_was_heard(model: ParserModel)
    ensures
        ({
            let after = restarted(model);
            &&& after.heard.len() == 0
            &&& after.rate == model.rate
            &&& after.state == model.state
            &&& after.pending == model.pending
            &&& after.pause_timeout == model.pause_timeout
            &&& after.fallback_fps == model.fallback_fps
        }),
{
}

} // verus!
