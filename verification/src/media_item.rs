//! Media items, the frames at which they play, and their conflicts.

use crate::config::{timecode_frames, timecode_seconds, LayerId, Timecode};
use crate::decimal::decimal;
use crate::float::{
    ceiling, double, lemma_small_product, less, of_nat, product, quotient, rounded_u32, single, sum,
    widened, Float32, Float64, Value,
};
use crate::float_text::{tenths_text, write_tenths};
use crate::rounding::{lemma_round_upper, round_ratio};
use crate::text::{contains, lemma_contained};
use crate::timecode_parser::TimecodePosition;
use vstd::arithmetic::power2::{
    lemma2_to64, lemma_pow2_adds, lemma_pow2_pos, lemma_pow2_strictly_increases, pow2,
};
use vstd::prelude::*;
use vstd::string::StringExecFns;

verus! {

/// A media item to be played on a CasparCG layer, with associated timecode metadata.
#[derive(Debug, Clone)]
pub struct MediaItem {
    /// The CasparCG layer to play this media on.
    pub layer: LayerId,
    /// The media filename in CasparCG.
    pub filename: String,
    /// The timecode at which this media should start playing.
    pub start_tc: Timecode,
    /// The total duration of this media in frames.
    pub duration_frames: u32,
    /// The native framerate of this media is played at.
    pub fps: Float32,
    /// Frames to start playback earlier, compensating for output delay.
    pub output_delay_frames: u32,
}

/// What is known of a media item.
pub struct ItemModel {
    pub layer: u16,
    pub filename: Seq<char>,
    pub start_tc: Timecode,
    pub duration_frames: u32,
    pub fps: Value,
    pub output_delay_frames: u32,
}

impl View for MediaItem {
    type V = ItemModel;

    open spec fn view(&self) -> ItemModel {
        ItemModel {
            layer: self.layer.id(),
            filename: self.filename@,
            start_tc: self.start_tc,
            duration_frames: self.duration_frames,
            fps: self.fps@,
            output_delay_frames: self.output_delay_frames,
        }
    }
}

/// The frame rate of a position.
pub open spec fn rate_of(position: TimecodePosition) -> Value {
    of_nat(single(), position.fps as nat)
}

impl ItemModel {
    /// Start time in seconds, without the sub-second frames component.
    pub open spec fn start_secs(self) -> Value {
        of_nat(double(), timecode_seconds(self.start_tc))
    }

    /// End time in seconds, rounded up to the next whole second. A start at frames within a second
    /// counts as one at the next second.
    pub open spec fn end_secs(self) -> Value {
        let start = timecode_seconds(self.start_tc) + if self.start_tc.frames > 0 {
            1nat
        } else {
            0nat
        };
        ceiling(
            sum(
                double(),
                of_nat(double(), start),
                quotient(
                    double(),
                    of_nat(double(), self.duration_frames as nat),
                    widened(self.fps),
                ),
            ),
        )
    }

    /// The first frame at which the item plays: its start, shifted earlier by the output delay as
    /// far as the timeline goes.
    pub open spec fn start_frame(self, rate: Value) -> nat {
        let start = timecode_frames(self.start_tc, rate);
        if start >= self.output_delay_frames {
            (start - self.output_delay_frames) as nat
        } else {
            0
        }
    }

    /// How many frames of the timeline the item plays.
    pub open spec fn duration(self, rate: Value) -> nat {
        rounded_u32(
            product(
                single(),
                quotient(single(), of_nat(single(), self.duration_frames as nat), self.fps),
                rate,
            ),
        ) as nat
    }

    /// The frame at which the item no longer plays.
    pub open spec fn end_frame(self, rate: Value) -> nat {
        self.start_frame(rate) + self.duration(rate)
    }

    /// Whether the item plays at a position.
    pub open spec fn active(self, position: TimecodePosition) -> bool {
        self.start_frame(rate_of(position)) <= position.total_frames < self.end_frame(
            rate_of(position),
        )
    }

    /// Whether the frames that decide if the item plays at a position can be counted.
    pub open spec fn countable(self, position: TimecodePosition) -> bool {
        self.start_frame(rate_of(position)) <= position.total_frames ==> self.end_frame(
            rate_of(position),
        ) <= u32::MAX
    }

    /// The frame of the output to seek to at a position.
    pub open spec fn offset(self, position: TimecodePosition, server_fps: Value) -> u32 {
        rounded_u32(
            quotient(
                single(),
                product(
                    single(),
                    of_nat(
                        single(),
                        (position.total_frames - self.start_frame(rate_of(position))) as nat,
                    ),
                    server_fps,
                ),
                rate_of(position),
            ),
        )
    }
}

/// At whole frame rates every timecode stands at a frame that can be counted.
pub proof fn lemma_timecode_frames_fit(timecode: Timecode, fps: u8)
    ensures
        timecode_frames(timecode, of_nat(single(), fps as nat)) <= u32::MAX,
{
    let seconds = timecode_seconds(timecode);
    lemma2_to64();
    lemma_small_product(seconds, fps as nat);
    let frames = seconds * fps as nat;
    assert(frames <= pow2(28)) by (nonlinear_arith)
        requires
            frames == seconds * fps as nat,
            seconds <= 933_555,
            fps <= 255,
            pow2(28) == 0x1000_0000,
    ;
    lemma_pow2_adds(28, 149);
    lemma_pow2_pos(149);
    let units = frames * pow2(149);
    assert(units <= pow2(177)) by (nonlinear_arith)
        requires
            units == frames * pow2(149),
            frames <= pow2(28),
            pow2(177) == pow2(28) * pow2(149),
    ;
    lemma_round_upper(24, units, 1, 177);
    let near = round_ratio(24, units, 1);
    lemma_pow2_strictly_increases(177, 277);
    assert(near / pow2(149) <= pow2(28)) by (nonlinear_arith)
        requires
            near <= pow2(28) * pow2(149),
            pow2(149) > 0,
    ;
}

impl MediaItem {
    /// Start time in seconds, truncating the sub-second frames component.
    pub fn start_secs(&self) -> (seconds: Float64)
        ensures
            seconds@ == self@.start_secs(),
    {
        Float64::from_u32(self.start_tc.whole_seconds())
    }

    /// End time in seconds, rounded up to the next whole second.
    pub fn end_secs(&self) -> (seconds: Float64)
        ensures
            seconds@ == self@.end_secs(),
    {
        let mut start: u32 = self.start_tc.whole_seconds();
        if self.start_tc.frames > 0 {
            start = start + 1;  // worst-case
        }
        let duration = Float64::from_u32(self.duration_frames).divided_by(&self.fps.widen());
        Float64::from_u32(start).plus(&duration).ceil()
    }

    /// Returns the start frame of this media item in the timecode timeline at the given TC fps,
    /// shifted earlier by `output_delay_frames` to compensate for output latency.
    pub fn start_frame(&self, tc_fps: &Float32) -> (frame: u32)
        requires
            timecode_frames(self.start_tc, tc_fps@) <= u32::MAX,
        ensures
            frame == self@.start_frame(tc_fps@),
    {
        self.start_tc.total_frames(tc_fps).saturating_sub(self.output_delay_frames)
    }

    /// How many frames of the timeline this media item plays at the given TC fps.
    fn duration(&self, tc_fps: &Float32) -> (frames: u32)
        ensures
            frames == self@.duration(tc_fps@),
    {
        Float32::from_u32(self.duration_frames).divided_by(&self.fps).times(tc_fps).round_to_u32()
    }

    /// Returns the end frame (exclusive) of this media item at the given TC fps.
    pub fn end_frame(&self, tc_fps: &Float32) -> (frame: u32)
        requires
            timecode_frames(self.start_tc, tc_fps@) <= u32::MAX,
            self@.end_frame(tc_fps@) <= u32::MAX,
        ensures
            frame == self@.end_frame(tc_fps@),
    {
        self.start_frame(tc_fps) + self.duration(tc_fps)
    }

    /// Whether the frames that decide if this media item is active can be counted.
    pub fn is_countable_at(&self, pos: &TimecodePosition) -> (countable: bool)
        ensures
            countable == self@.countable(*pos),
    {
        let tc_fps = Float32::from_u32(pos.fps as u32);
        proof {
            lemma_timecode_frames_fit(self.start_tc, pos.fps);
        }
        let start: u32 = self.start_frame(&tc_fps);
        pos.total_frames < start || start.checked_add(self.duration(&tc_fps)).is_some()
    }

    /// Returns whether this media item should be active at the given timecode position.
    pub fn is_active_at(&self, pos: &TimecodePosition) -> (active: bool)
        requires
            self@.countable(*pos),
        ensures
            active == self@.active(*pos),
    {
        let tc_fps = Float32::from_u32(pos.fps as u32);
        proof {
            lemma_timecode_frames_fit(self.start_tc, pos.fps);
        }
        pos.total_frames >= self.start_frame(&tc_fps) && pos.total_frames < self.end_frame(&tc_fps)
    }

    /// Computes the server frame to SEEK to for the given timecode position.
    pub fn media_offset(&self, pos: &TimecodePosition, server_fps: &Float32) -> (frame: u32)
        requires
            self@.start_frame(rate_of(*pos)) <= pos.total_frames,
        ensures
            frame == self@.offset(*pos, server_fps@),
    {
        let tc_fps = Float32::from_u32(pos.fps as u32);
        proof {
            lemma_timecode_frames_fit(self.start_tc, pos.fps);
        }
        let timecode_offset: u32 = pos.total_frames - self.start_frame(&tc_fps);
        Float32::from_u32(timecode_offset).times(server_fps).divided_by(&tc_fps).round_to_u32()
    }
}

/// What is known of a row of media items.
pub open spec fn item_models(items: Seq<MediaItem>) -> Seq<ItemModel> {
    items.map_values(|item: MediaItem| item@)
}

/// Two media items share a layer, and their times overlap.
pub open spec fn overlaps(a: ItemModel, b: ItemModel) -> bool {
    &&& a.layer == b.layer
    &&& less(a.start_secs(), b.end_secs())
    &&& less(b.start_secs(), a.end_secs())
}

/// No two of the media items overlap.
pub open spec fn conflict_free(items: Seq<ItemModel>) -> bool {
    forall|i: int, j: int| 0 <= i < j < items.len() ==> !#[trigger] overlaps(items[i], items[j])
}

/// The items at `i` and `j` overlap, and no pair that starts earlier, or with the same item and
/// ends earlier, does.
pub open spec fn first_conflict(items: Seq<ItemModel>, i: int, j: int) -> bool {
    &&& 0 <= i < j < items.len()
    &&& overlaps(items[i], items[j])
    &&& forall|x: int, y: int|
        0 <= x < y < items.len() && (x < i || (x == i && y < j)) ==> !#[trigger] overlaps(
            items[x],
            items[y],
        )
}

/// Two media items that overlap on a layer, with the times at which they are active.
#[derive(Debug, Clone)]
pub struct LayerConflict {
    pub layer: LayerId,
    pub first: String,
    pub first_start: Float64,
    pub first_end: Float64,
    pub second: String,
    pub second_start: Float64,
    pub second_end: Float64,
}

/// Two media items that overlap, in a specification.
pub struct ConflictModel {
    pub layer: u16,
    pub first: Seq<char>,
    pub first_start: Value,
    pub first_end: Value,
    pub second: Seq<char>,
    pub second_start: Value,
    pub second_end: Value,
}

impl View for LayerConflict {
    type V = ConflictModel;

    open spec fn view(&self) -> ConflictModel {
        ConflictModel {
            layer: self.layer.id(),
            first: self.first@,
            first_start: self.first_start@,
            first_end: self.first_end@,
            second: self.second@,
            second_start: self.second_start@,
            second_end: self.second_end@,
        }
    }
}

/// The conflict between two media items.
pub open spec fn conflict_of(a: ItemModel, b: ItemModel) -> ConflictModel {
    ConflictModel {
        layer: a.layer,
        first: a.filename,
        first_start: a.start_secs(),
        first_end: a.end_secs(),
        second: b.filename,
        second_start: b.start_secs(),
        second_end: b.end_secs(),
    }
}

/// The words for a conflict.
pub open spec fn conflict_text(conflict: ConflictModel) -> Seq<char> {
    "layer "@ + decimal(conflict.layer as nat) + " has a scheduling conflict: '"@ + conflict.first
        + "' (active "@ + tenths_text(conflict.first_start) + "s\u{2013}"@ + tenths_text(
        conflict.first_end,
    ) + "s) overlaps with '"@ + conflict.second + "' (active "@ + tenths_text(
        conflict.second_start,
    ) + "s\u{2013}"@ + tenths_text(conflict.second_end) + "s)"@
}

impl LayerConflict {
    /// The words for this conflict.
    pub fn message(&self) -> (message: String)
        ensures
            message@ == conflict_text(self@),
    {
        let mut message = String::from_str("layer ");
        message.append(self.layer.to_text().as_str());
        message.append(" has a scheduling conflict: '");
        message.append(self.first.as_str());
        message.append("' (active ");
        message.append(write_tenths(&self.first_start).as_str());
        message.append("s\u{2013}");
        message.append(write_tenths(&self.first_end).as_str());
        message.append("s) overlaps with '");
        message.append(self.second.as_str());
        message.append("' (active ");
        message.append(write_tenths(&self.second_start).as_str());
        message.append("s\u{2013}");
        message.append(write_tenths(&self.second_end).as_str());
        message.append("s)");
        message
    }
}

proof fn lemma_join(a: Seq<char>, b: Seq<char>, c: Seq<char>)
    ensures
        a + (b + c) == a + b + c,
{
    assert(a + (b + c) =~= a + b + c);
}

/// Six texts in a row after another one are what they are together after it.
proof fn lemma_joins(
    a: Seq<char>,
    b: Seq<char>,
    c: Seq<char>,
    d: Seq<char>,
    e: Seq<char>,
    f: Seq<char>,
    g: Seq<char>,
)
    ensures
        a + (b + c + d + e + f + g) == a + b + c + d + e + f + g,
{
    lemma_join(a, b + c + d + e + f, g);
    lemma_join(a, b + c + d + e, f);
    lemma_join(a, b + c + d, e);
    lemma_join(a, b + c, d);
    lemma_join(a, b, c);
}

/// The words for a conflict name its layer, and each of the two media items with the seconds at
/// which it starts and ends.
pub proof fn law_conflict_text_tells_who_and_when(conflict: ConflictModel)
    ensures
        contains(conflict_text(conflict), "layer "@ + decimal(conflict.layer as nat)),
        contains(
            conflict_text(conflict),
            conflict.first + "' (active "@ + tenths_text(conflict.first_start) + "s\u{2013}"@
                + tenths_text(conflict.first_end) + "s) overlaps with '"@,
        ),
        contains(
            conflict_text(conflict),
            conflict.second + "' (active "@ + tenths_text(conflict.second_start) + "s\u{2013}"@
                + tenths_text(conflict.second_end) + "s)"@,
        ),
{
    let c = conflict;
    let text = conflict_text(c);
    let layer = "layer "@ + decimal(c.layer as nat);
    let lead = " has a scheduling conflict: '"@;
    let active = "' (active "@;
    let dash = "s\u{2013}"@;
    let linking = "s) overlaps with '"@;
    let t1 = tenths_text(c.first_start);
    let t2 = tenths_text(c.first_end);
    let t3 = tenths_text(c.second_start);
    let t4 = tenths_text(c.second_end);
    let one = c.first + active + t1 + dash + t2 + linking;
    let two = c.second + active + t3 + dash + t4 + "s)"@;
    let none: Seq<char> = seq![];
    lemma_joins(layer + lead, c.first, active, t1, dash, t2, linking);
    lemma_joins(layer + lead + one, c.second, active, t3, dash, t4, "s)"@);
    assert(text == layer + lead + one + two);
    lemma_contained(layer + lead, one, two);
    assert(text + none =~= text);
    lemma_contained(layer + lead + one, two, none);
    lemma_join(layer, lead, one);
    lemma_join(layer, lead + one, two);
    assert(none + layer =~= layer);
    lemma_contained(none, layer, lead + one + two);
}

} // verus!
