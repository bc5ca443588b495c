//! Configuration types and the rules that a configuration must keep.

use crate::decimal::{
    decimal, decimal_text, int_error_text, law_decimal_is_read_back, parse_unsigned, unsigned,
    IntError,
};
use crate::float::{cast_u32, of_nat, product, single, Float32, Value};
use crate::text::{chars_of, contains, lemma_contained, pieces, split_at_char};
use std::collections::HashSet;
use vstd::prelude::*;
use vstd::string::StringExecFns;

verus! {

/// CasparCG layer number.
#[derive(Debug, Clone, Copy, PartialEq, Eq, Hash, Structural)]
pub struct LayerId(u16);

impl LayerId {
    /// The layer number.
    pub closed spec fn id(self) -> u16 {
        self.0
    }

    /// The layer with a number.
    pub fn new(id: u16) -> (layer: Self)
        ensures
            layer.id() == id,
    {
        Self(id)
    }

    /// The layer number in decimal notation.
    pub fn to_text(&self) -> (text: String)
        ensures
            text@ == decimal(self.id() as nat),
    {
        decimal_text(self.0 as u64)
    }
}

/// A layer is told by its number.
pub proof fn law_layers_are_told_by_number(a: LayerId, b: LayerId)
    ensures
        a == b <==> a.id() == b.id(),
{
}

impl std::ops::Deref for LayerId {
    type Target = u16;

    fn deref(&self) -> (id: &u16)
        ensures
            *id == self.id(),
    {
        &self.0
    }
}

/// A position on the timecode timeline, as hours, minutes, seconds and frames.
#[derive(Debug, PartialEq, Eq, Clone, Copy, Structural)]
pub struct Timecode {
    pub hours: u8,
    pub minutes: u8,
    pub seconds: u8,
    pub frames: u8,
}

/// What keeps a text from being a timecode.
#[derive(Debug, PartialEq, Eq, Clone, Copy, Structural)]
pub enum TimecodeFault {
    /// There are not four numbers.
    Format,
    /// A number cannot be read.
    Number(IntError),
    /// There are 60 minutes or more.
    Minutes,
    /// There are 60 seconds or more.
    Seconds,
}

/// A text that is no timecode.
#[derive(Debug, Clone)]
pub struct TimecodeError {
    pub fault: TimecodeFault,
    pub text: String,
}

/// The words for an error.
pub open spec fn timecode_error_text(fault: TimecodeFault, text: Seq<char>) -> Seq<char> {
    match fault {
        TimecodeFault::Format => "invalid timecode format: "@ + text,
        TimecodeFault::Number(error) => int_error_text(error),
        TimecodeFault::Minutes => "invalid minutes in timecode: "@ + text,
        TimecodeFault::Seconds => "invalid seconds in timecode: "@ + text,
    }
}

impl TimecodeError {
    /// The words for this error.
    pub fn message(&self) -> (message: String)
        ensures
            message@ == timecode_error_text(self.fault, self.text@),
    {
        match self.fault {
            TimecodeFault::Format => {
                String::from_str("invalid timecode format: ").concat(self.text.as_str())
            },
            TimecodeFault::Number(error) => String::from_str(error.message()),
            TimecodeFault::Minutes => {
                String::from_str("invalid minutes in timecode: ").concat(self.text.as_str())
            },
            TimecodeFault::Seconds => {
                String::from_str("invalid seconds in timecode: ").concat(self.text.as_str())
            },
        }
    }
}

/// The timecode that four texts stand for. The first number that cannot be read decides the
/// error, and a range is looked at only once all numbers are read.
pub open spec fn timecode_of(parts: Seq<Seq<char>>) -> Result<Timecode, TimecodeFault> {
    if parts.len() != 4 {
        Err(TimecodeFault::Format)
    } else {
        match (
            unsigned(parts[0], 255),
            unsigned(parts[1], 255),
            unsigned(parts[2], 255),
            unsigned(parts[3], 255),
        ) {
            (Err(e), _, _, _) => Err(TimecodeFault::Number(e)),
            (_, Err(e), _, _) => Err(TimecodeFault::Number(e)),
            (_, _, Err(e), _) => Err(TimecodeFault::Number(e)),
            (_, _, _, Err(e)) => Err(TimecodeFault::Number(e)),
            (Ok(h), Ok(m), Ok(s), Ok(f)) => if m >= 60 {
                Err(TimecodeFault::Minutes)
            } else if s >= 60 {
                Err(TimecodeFault::Seconds)
            } else {
                Ok(
                    Timecode {
                        hours: h as u8,
                        minutes: m as u8,
                        seconds: s as u8,
                        frames: f as u8,
                    },
                )
            },
        }
    }
}

/// The whole seconds of a timecode.
pub open spec fn timecode_seconds(timecode: Timecode) -> nat {
    (timecode.hours * 3600 + timecode.minutes * 60 + timecode.seconds) as nat
}

/// The frame at which a timecode stands, at a frame rate.
pub open spec fn timecode_frames(timecode: Timecode, fps: Value) -> nat {
    cast_u32(product(single(), of_nat(single(), timecode_seconds(timecode)), fps)) as nat
        + timecode.frames as nat
}

impl Timecode {
    /// The whole seconds of this timecode.
    pub fn whole_seconds(&self) -> (seconds: u32)
        ensures
            seconds == timecode_seconds(*self),
    {
        self.hours as u32 * 3600 + self.minutes as u32 * 60 + self.seconds as u32
    }

    /// Converts this timecode to total frames using the given framerate.
    pub fn total_frames(&self, fps: &Float32) -> (frames: u32)
        requires
            timecode_frames(*self, fps@) <= u32::MAX,
        ensures
            frames == timecode_frames(*self, fps@),
    {
        let seconds = Float32::from_u32(self.whole_seconds());
        seconds.times(fps).to_u32() + self.frames as u32
    }

    /// Reads a timecode such as `01:10:00:00`.
    pub fn try_from(s: &str) -> (result: Result<Timecode, TimecodeError>)
        ensures
            match result {
                Ok(timecode) => timecode_of(pieces(s@, ':', 0)) == Ok::<_, TimecodeFault>(timecode),
                Err(error) => timecode_of(pieces(s@, ':', 0)) == Err::<Timecode, _>(error.fault)
                    && error.text@ == s@,
            },
    {
        let chars = chars_of(s);
        let parts = split_at_char(&chars, ':');
        let ghost texts = pieces(s@, ':', 0);
        assert(texts.len() == parts@.len());
        if parts.len() != 4 {
            return Err(TimecodeError { fault: TimecodeFault::Format, text: String::from_str(s) });
        }
        assert(forall|i: int| 0 <= i < 4 ==> texts[i] == (#[trigger] parts@[i])@);
        let mut numbers: Vec<u32> = Vec::new();
        let mut i: usize = 0;
        while i < 4
            invariant
                i <= 4,
                parts@.len() == 4,
                texts.len() == 4,
                texts == pieces(s@, ':', 0),
                forall|j: int| 0 <= j < 4 ==> texts[j] == (#[trigger] parts@[j])@,
                numbers@.len() == i,
                forall|j: int|
                    0 <= j < i ==> unsigned(texts[j], 255) == Ok::<nat, IntError>(
                        (#[trigger] numbers@[j]) as nat,
                    ) && numbers@[j] <= 255,
            decreases 4 - i,
        {
            match parse_unsigned(&parts[i], 255) {
                Ok(n) => {
                    numbers.push(n);
                },
                Err(e) => {
                    proof {
                        assert forall|j: int| 0 <= j < i implies unsigned(
                            #[trigger] texts[j],
                            255,
                        ) is Ok by {
                            let _ = numbers@[j];
                        }
                        assert(texts[i as int] == parts@[i as int]@);
                    }
                    return Err(
                        TimecodeError {
                            fault: TimecodeFault::Number(e),
                            text: String::from_str(s),
                        },
                    );
                },
            }
            i = i + 1;
        }
        proof {
            let _ = (numbers@[0], numbers@[1], numbers@[2], numbers@[3]);
        }
        if numbers[1] >= 60 {
            return Err(TimecodeError { fault: TimecodeFault::Minutes, text: String::from_str(s) });
        }
        if numbers[2] >= 60 {
            return Err(TimecodeError { fault: TimecodeFault::Seconds, text: String::from_str(s) });
        }
        Ok(
            Timecode {
                hours: numbers[0] as u8,
                minutes: numbers[1] as u8,
                seconds: numbers[2] as u8,
                frames: numbers[3] as u8,
            },
        )
    }
}

/// Frame difference above which a timecode jump triggers a resync, where none is configured.
pub fn default_resync_threshold_frames() -> (frames: u32)
    ensures
        frames == 10,
{
    10
}

/// Framerate for timecode of unknown framerate, where none is configured.
pub fn default_tc_fallback_fps() -> (fps: u8)
    ensures
        fps == 25,
{
    25
}

/// Timeout for TCP and AMCP, where none is configured.
pub fn default_tcp_timeout_secs() -> (seconds: u64)
    ensures
        seconds == 5,
{
    5
}

/// Media layer configuration for a track
#[derive(Debug, Clone)]
pub struct MediaLayer {
    /// CasparCG layer number
    pub layer: LayerId,
    /// File path to play
    pub file: String,
}

/// Track definition mapping a timecode to media files
#[derive(Debug, Clone)]
pub struct Track {
    /// Human-readable track name
    pub name: String,
    /// Starting timecode for this track (e.g., "01:10:00:00")
    /// When this timecode is received, the video starts at frame 0
    pub tc_start: Timecode,
    /// Media layers to play for this track
    pub media: Vec<MediaLayer>,
}

/// Application configuration
#[derive(Debug, Clone)]
pub struct Config {
    /// CasparCG server hostname or IP address
    pub caspar_host: String,
    /// CasparCG AMCP port (usually 5250)
    pub caspar_port: u16,
    /// CasparCG channel to control
    pub caspar_channel: u16,
    /// Audio device name for LTC input (None = default device)
    pub audio_device: Option<String>,
    /// Milliseconds without a new LTC frame before playback is considered paused
    pub pause_detection_threshold_ms: u64,
    /// Frame difference above which a timecode jump triggers a resync. Default is 10 frames.
    pub resync_threshold_frames: u32,
    /// Fallback framerate when timecode framerate is unknown. Default is 25 fps.
    pub tc_fallback_fps: u8,
    /// Timeout in seconds for TCP connect and AMCP command I/O. Default is 5.
    pub tcp_timeout_secs: u64,
    /// Track definitions
    pub tracks: Vec<Track>,
}

/// A constraint that a configuration violates.
#[derive(Debug, Clone)]
pub enum ConfigError {
    FallbackFps,
    TcpTimeout,
    PauseThreshold,
    /// A layer appears more than once in a track.
    DuplicateLayer { track: String, layer: LayerId },
}

impl ConfigError {
    /// The words for this error.
    pub open spec fn text(&self) -> Seq<char> {
        match *self {
            ConfigError::FallbackFps => "tc_fallback_fps must be greater than 0"@,
            ConfigError::TcpTimeout => "tcp_timeout_secs must be greater than 0"@,
            ConfigError::PauseThreshold => "pause_detection_threshold_ms must be at least 10"@,
            ConfigError::DuplicateLayer { track, layer } => "track '"@ + track@ + "' has layer "@
                + decimal(layer.id() as nat)
                + " assigned to multiple files; a layer can only appear once per track"@,
        }
    }

    /// The words for this error.
    pub fn message(&self) -> (message: String)
        ensures
            message@ == self.text(),
    {
        match self {
            ConfigError::FallbackFps => String::from_str("tc_fallback_fps must be greater than 0"),
            ConfigError::TcpTimeout => String::from_str("tcp_timeout_secs must be greater than 0"),
            ConfigError::PauseThreshold => {
                String::from_str("pause_detection_threshold_ms must be at least 10")
            },
            ConfigError::DuplicateLayer { track, layer } => {
                String::from_str("track '").concat(track.as_str()).concat("' has layer ").concat(
                    layer.to_text().as_str(),
                ).concat(" assigned to multiple files; a layer can only appear once per track")
            },
        }
    }
}

/// The layer at index `j` of a track stands at an earlier index too.
pub open spec fn is_repeated(media: Seq<MediaLayer>, j: int) -> bool {
    exists|i: int| 0 <= i < j && (#[trigger] media[i]).layer == media[j].layer
}

/// No layer appears twice in a track.
pub open spec fn layers_unique(track: Track) -> bool {
    forall|j: int| 0 <= j < track.media@.len() ==> !#[trigger] is_repeated(track.media@, j)
}

/// The numbers of a configuration are in range.
pub open spec fn limits_kept(config: Config) -> bool {
    &&& config.tc_fallback_fps > 0
    &&& config.tcp_timeout_secs > 0
    &&& config.pause_detection_threshold_ms >= 10
}

/// The first repeated layer of a configuration is the one at index `j` of the track at index `t`.
pub open spec fn first_repeated(config: Config, t: int, j: int) -> bool {
    &&& 0 <= t < config.tracks@.len()
    &&& forall|s: int| 0 <= s < t ==> layers_unique(#[trigger] config.tracks@[s])
    &&& 0 <= j < config.tracks@[t].media@.len()
    &&& is_repeated(config.tracks@[t].media@, j)
    &&& forall|i: int| 0 <= i < j ==> !#[trigger] is_repeated(config.tracks@[t].media@, i)
}

/// The configuration violates no constraint.
pub open spec fn is_valid(config: Config) -> bool {
    &&& limits_kept(config)
    &&& forall|t: int| 0 <= t < config.tracks@.len() ==> layers_unique(#[trigger] config.tracks@[t])
}

/// The index of the first layer of a track that stands at an earlier index too.
fn find_repeated(media: &Vec<MediaLayer>) -> (found: Option<usize>)
    ensures
        match found {
            Some(j) => j < media@.len() && is_repeated(media@, j as int) && forall|i: int|
                0 <= i < j ==> !#[trigger] is_repeated(media@, i),
            None => forall|i: int| 0 <= i < media@.len() ==> !#[trigger] is_repeated(media@, i),
        },
{
    broadcast use vstd::std_specs::hash::group_hash_axioms;

    let mut seen_layers: HashSet<u16> = HashSet::new();
    let mut j: usize = 0;
    while j < media.len()
        invariant
            j <= media@.len(),
            vstd::std_specs::hash::obeys_key_model::<u16>(),
            vstd::std_specs::hash::builds_valid_hashers::<std::hash::RandomState>(),
            forall|id: u16| #[trigger]
                seen_layers@.contains(id) <==> exists|i: int|
                    0 <= i < j && (#[trigger] media@[i]).layer.id() == id,
            forall|i: int| 0 <= i < j ==> !#[trigger] is_repeated(media@, i),
        decreases media.len() - j,
    {
        let id: u16 = *media[j].layer;
        let ghost before = seen_layers@;
        let fresh: bool = seen_layers.insert(id);
        if !fresh {
            proof {
                let i = choose|i: int| 0 <= i < j && (#[trigger] media@[i]).layer.id() == id;
                assert(media@[i].layer == media@[j as int].layer);
                assert(is_repeated(media@, j as int));
            }
            return Some(j);
        }
        proof {
            assert forall|i: int| 0 <= i < j implies (#[trigger] media@[i]).layer
                != media@[j as int].layer by {
                assert(media@[i].layer.id() == id ==> before.contains(id));
            }
            assert forall|k: u16| #[trigger] seen_layers@.contains(k) implies exists|i: int|
                0 <= i < j + 1 && (#[trigger] media@[i]).layer.id() == k by {
                if k == id {
                    assert(media@[j as int].layer.id() == k);
                } else {
                    assert(before.contains(k));
                }
            }
        }
        j = j + 1;
    }
    None
}

impl Config {
    /// Validate the configuration, returning an error if any constraints are violated.
    pub fn validate(&self) -> (result: Result<(), ConfigError>)
        ensures
            result is Ok <==> is_valid(*self),
            (result matches Err(ConfigError::FallbackFps)) <==> self.tc_fallback_fps == 0,
            (result matches Err(ConfigError::TcpTimeout)) <==> self.tc_fallback_fps != 0
                && self.tcp_timeout_secs == 0,
            (result matches Err(ConfigError::PauseThreshold)) <==> self.tc_fallback_fps != 0
                && self.tcp_timeout_secs != 0 && self.pause_detection_threshold_ms < 10,
            result matches Err(ConfigError::DuplicateLayer { track, layer }) ==> limits_kept(*self)
                && exists|t: int, j: int| #[trigger]
                first_repeated(*self, t, j) && track@ == self.tracks@[t].name@ && layer
                    == self.tracks@[t].media@[j].layer,
    {
        if self.tc_fallback_fps == 0 {
            return Err(ConfigError::FallbackFps);
        }
        if self.tcp_timeout_secs == 0 {
            return Err(ConfigError::TcpTimeout);
        }
        if self.pause_detection_threshold_ms < 10 {
            return Err(ConfigError::PauseThreshold);
        }
        let mut t: usize = 0;
        while t < self.tracks.len()
            invariant
                limits_kept(*self),
                t <= self.tracks@.len(),
                forall|s: int| 0 <= s < t ==> layers_unique(#[trigger] self.tracks@[s]),
            decreases self.tracks.len() - t,
        {
            match find_repeated(&self.tracks[t].media) {
                Some(j) => {
                    proof {
                        assert(first_repeated(*self, t as int, j as int));
                        assert(!layers_unique(self.tracks@[t as int]));
                    }
                    return Err(
                        ConfigError::DuplicateLayer {
                            track: self.tracks[t].name.clone(),
                            layer: self.tracks[t].media[j].layer,
                        },
                    );
                },
                None => {},
            }
            t = t + 1;
        }
        Ok(())
    }
}

/// The layers of a track are distinct exactly where no two of its media layers have the same layer
/// number, in whatever order they stand.
pub proof fn law_valid_tracks_have_distinct_layers(track: Track)
    ensures
        layers_unique(track) <==> forall|i: int, j: int|
            0 <= i < track.media@.len() && 0 <= j < track.media@.len() && i != j ==> (
            #[trigger] track.media@[i]).layer.id() != (#[trigger] track.media@[j]).layer.id(),
{
    let media = track.media@;
    if layers_unique(track) {
        assert forall|i: int, j: int|
            0 <= i < media.len() && 0 <= j < media.len() && i != j implies (
        #[trigger] media[i]).layer.id() != (#[trigger] media[j]).layer.id() by {
            let first = if i < j {
                i
            } else {
                j
            };
            let second = if i < j {
                j
            } else {
                i
            };
            assert(!is_repeated(media, second));
            assert(media[first].layer != media[second].layer);
        }
    } else {
        let j = choose|j: int| 0 <= j < media.len() && #[trigger] is_repeated(media, j);
        let i = choose|i: int| 0 <= i < j && (#[trigger] media[i]).layer == media[j].layer;
        assert(media[i].layer.id() == media[j].layer.id());
    }
}

/// The layer that is complained of does appear twice in the track that is complained of, and
/// nothing before it does: neither a layer of an earlier track, nor an earlier one of that track.
pub proof fn law_reported_layer_appears_twice(config: Config, t: int, j: int)
    requires
        first_repeated(config, t, j),
    ensures
        0 <= t < config.tracks@.len(),
        0 <= j < config.tracks@[t].media@.len(),
        exists|i: int|
            0 <= i < j && (#[trigger] config.tracks@[t].media@[i]).layer.id()
                == config.tracks@[t].media@[j].layer.id(),
        !is_valid(config),
        forall|s: int| 0 <= s < t ==> layers_unique(#[trigger] config.tracks@[s]),
        forall|i: int, k: int|
            0 <= i < k < j ==> (#[trigger] config.tracks@[t].media@[i]).layer.id() != (
            #[trigger] config.tracks@[t].media@[k]).layer.id(),
{
    let media = config.tracks@[t].media@;
    let i = choose|i: int| 0 <= i < j && (#[trigger] media[i]).layer == media[j].layer;
    assert(media[i].layer.id() == media[j].layer.id());
    assert(!layers_unique(config.tracks@[t]));
    assert forall|i: int, k: int| 0 <= i < k < j implies (#[trigger] media[i]).layer.id() != (
    #[trigger] media[k]).layer.id() by {
        assert(!is_repeated(media, k));
        assert(media[i].layer != media[k].layer);
    }
}

/// Four numbers up to 255 in decimal notation are read as a timecode exactly where there are fewer
/// than 60 minutes and fewer than 60 seconds. Neither the hours nor the frames have another limit.
pub proof fn law_timecode_is_read(h: u8, m: u8, s: u8, f: u8)
    ensures
        timecode_of(
            seq![decimal(h as nat), decimal(m as nat), decimal(s as nat), decimal(f as nat)],
        ) == if m >= 60 {
            Err(TimecodeFault::Minutes)
        } else if s >= 60 {
            Err(TimecodeFault::Seconds)
        } else {
            Ok(Timecode { hours: h, minutes: m, seconds: s, frames: f })
        },
{
    law_decimal_is_read_back(h as nat, 255);
    law_decimal_is_read_back(m as nat, 255);
    law_decimal_is_read_back(s as nat, 255);
    law_decimal_is_read_back(f as nat, 255);
}

/// Anything but four parts is no timecode, and neither is one with a part that is no number up to
/// 255. What is read as a timecode has fewer than 60 minutes and fewer than 60 seconds.
pub proof fn law_other_texts_are_no_timecode(parts: Seq<Seq<char>>)
    ensures
        parts.len() != 4 <==> timecode_of(parts) == Err::<Timecode, _>(TimecodeFault::Format),
        parts.len() == 4 && (exists|k: int| 0 <= k < 4 && unsigned(#[trigger] parts[k], 255) is Err)
            <==> timecode_of(parts) matches Err(TimecodeFault::Number(_)),
        timecode_of(parts) matches Ok(timecode) ==> timecode.minutes < 60 && timecode.seconds < 60,
{
    if parts.len() == 4 {
        assert(unsigned(parts[0], 255) is Err || unsigned(parts[1], 255) is Err || unsigned(
            parts[2],
            255,
        ) is Err || unsigned(parts[3], 255) is Err <==> timecode_of(parts) matches Err(
            TimecodeFault::Number(_),
        ));
        if exists|k: int| 0 <= k < 4 && unsigned(#[trigger] parts[k], 255) is Err {
            let k = choose|k: int| 0 <= k < 4 && unsigned(#[trigger] parts[k], 255) is Err;
            assert(k == 0 || k == 1 || k == 2 || k == 3);
        }
    }
}

/// The words for a layer that appears twice name the track and the layer.
pub proof fn law_duplicate_layer_is_named(error: ConfigError)
    requires
        error is DuplicateLayer,
    ensures
        contains(error.text(), error->track@),
        contains(error.text(), "layer "@ + decimal(error->layer.id() as nat) + " "@),
{
    reveal_strlit("' has layer ");
    reveal_strlit("layer ");
    reveal_strlit(" ");
    reveal_strlit(" assigned to multiple files; a layer can only appear once per track");
    let name = error->track@;
    let number = decimal(error->layer.id() as nat);
    let lead = "track '"@;
    let words = "' has layer "@;
    let rest = " assigned to multiple files; a layer can only appear once per track"@;
    assert(error.text() == lead + name + words + number + rest);
    lemma_contained(lead, name, words + number + rest);
    assert(lead + name + (words + number + rest) =~= error.text());
    let subject = "layer "@ + number + " "@;
    let before = words.take(6);
    assert(words =~= before + "layer "@);
    assert(rest =~= " "@ + rest.skip(1));
    lemma_contained(lead + name + before, subject, rest.skip(1));
    assert(lead + name + before + subject + rest.skip(1) =~= error.text());
}

/// The words for a text that is no timecode quote it, unless one of its numbers cannot be read.
pub proof fn law_timecode_error_quotes_the_text(fault: TimecodeFault, text: Seq<char>)
    requires
        !(fault is Number),
    ensures
        contains(timecode_error_text(fault, text), text),
{
    let none: Seq<char> = seq![];
    let words = match fault {
        TimecodeFault::Format => "invalid timecode format: "@,
        TimecodeFault::Minutes => "invalid minutes in timecode: "@,
        _ => "invalid seconds in timecode: "@,
    };
    lemma_contained(words, text, none);
    assert(words + text + none =~= words + text);
}

} // verus!
