//! The media items that a configuration asks for.

use crate::amcp::{InfoModel, MediaInfo};
use crate::config::{Config, Timecode, Track};
use crate::float::{is_zero, lemma_small_single, less, Float32, Value};
use crate::media_item::{
    conflict_text, item_models, ConflictModel, ItemModel, LayerConflict, MediaItem,
};
use crate::text::{chars_of, contains, lemma_contained, same};
use vstd::arithmetic::power2::lemma2_to64;
use vstd::prelude::*;
use vstd::string::StringExecFns;

verus! {

/// A media item of a configuration whose file is not looked up yet.
pub struct Cue {
    pub start_tc: Timecode,
    pub layer: u16,
    pub file: Seq<char>,
}

/// The media item of a track at an index.
pub open spec fn cue_of(track: Track, j: int) -> Cue {
    Cue {
        start_tc: track.tc_start,
        layer: track.media@[j].layer.id(),
        file: track.media@[j].file@,
    }
}

/// The media items of a track.
pub open spec fn track_cues(track: Track) -> Seq<Cue> {
    Seq::new(track.media@.len(), |j: int| cue_of(track, j))
}

/// The media items of all tracks, track by track.
pub open spec fn cues(tracks: Seq<Track>) -> Seq<Cue>
    decreases tracks.len(),
{
    if tracks.len() == 0 {
        seq![]
    } else {
        cues(tracks.drop_last()) + track_cues(tracks.last())
    }
}

/// Where a cue stands in a configuration.
#[derive(Clone, Copy)]
pub(crate) struct CuePlace {
    pub(crate) track: usize,
    pub(crate) media: usize,
}

/// The places are those of the cues.
pub(crate) open spec fn places_of(
    tracks: Seq<Track>,
    places: Seq<CuePlace>,
    cues: Seq<Cue>,
) -> bool {
    &&& places.len() == cues.len()
    &&& forall|k: int|
        0 <= k < places.len() ==> (#[trigger] places[k]).track < tracks.len() && places[k].media
            < tracks[places[k].track as int].media@.len() && cues[k] == cue_of(
            tracks[places[k].track as int],
            places[k].media as int,
        )
}

/// The places of all cues, track by track.
pub(crate) fn cue_places(tracks: &Vec<Track>) -> (places: Vec<CuePlace>)
    ensures
        places_of(tracks@, places@, cues(tracks@)),
{
    let mut places: Vec<CuePlace> = Vec::new();
    let mut t: usize = 0;
    while t < tracks.len()
        invariant
            t <= tracks@.len(),
            places_of(tracks@, places@, cues(tracks@.take(t as int))),
        decreases tracks.len() - t,
    {
        let ghost done = cues(tracks@.take(t as int));
        let ghost track = tracks@[t as int];
        let mut j: usize = 0;
        proof {
            assert(done + track_cues(track).take(0) =~= done);
        }
        while j < tracks[t].media.len()
            invariant
                t < tracks@.len(),
                track == tracks@[t as int],
                j <= track.media@.len(),
                places_of(tracks@, places@, done + track_cues(track).take(j as int)),
            decreases track.media@.len() - j,
        {
            places.push(CuePlace { track: t, media: j });
            proof {
                assert(done + track_cues(track).take(j + 1) =~= (done + track_cues(track).take(
                    j as int,
                )).push(cue_of(track, j as int)));
            }
            j = j + 1;
        }
        proof {
            assert(track_cues(track).take(j as int) =~= track_cues(track));
            assert(tracks@.take(t + 1).drop_last() =~= tracks@.take(t as int));
        }
        t = t + 1;
    }
    proof {
        assert(tracks@.take(t as int) =~= tracks@);
    }
    places
}

/// What is known of a row of media files.
pub open spec fn info_models(infos: Seq<MediaInfo>) -> Seq<InfoModel> {
    infos.map_values(|info: MediaInfo| info@)
}

/// The first of some media files that has a name.
pub open spec fn info_for(infos: Seq<InfoModel>, file: Seq<char>) -> Option<InfoModel>
    decreases infos.len(),
{
    if infos.len() == 0 {
        None
    } else if infos[0].filename == file {
        Some(infos[0])
    } else {
        info_for(infos.drop_first(), file)
    }
}

fn find_info(infos: &Vec<MediaInfo>, file: &String) -> (found: Option<usize>)
    ensures
        match found {
            Some(i) => i < infos@.len() && info_for(info_models(infos@), file@) == Some(
                infos@[i as int]@,
            ),
            None => info_for(info_models(infos@), file@) is None,
        },
{
    let name = chars_of(file.as_str());
    let ghost models = info_models(infos@);
    let mut i: usize = 0;
    assert(models.skip(0) =~= models);
    while i < infos.len()
        invariant
            i <= infos@.len(),
            name@ == file@,
            models == info_models(infos@),
            info_for(models.skip(i as int), file@) == info_for(models, file@),
        decreases infos.len() - i,
    {
        proof {
            assert(models.skip(i as int)[0] == infos@[i as int]@);
            assert(models.skip(i as int).drop_first() =~= models.skip(i + 1));
        }
        if same(&chars_of(infos[i].filename.as_str()), &name) {
            return Some(i);
        }
        i = i + 1;
    }
    None
}

/// Why a controller cannot be set up.
#[derive(Debug, Clone)]
pub enum SetupError {
    /// Nothing is known of a media file.
    MissingInfo { file: String },
    /// The frame rate of a media file is zero or less.
    InvalidRate { file: String, rate: Float32 },
    /// Two media items overlap.
    Conflict(LayerConflict),
}

/// Why a controller cannot be set up, in a specification.
pub enum SetupFault {
    MissingInfo { file: Seq<char> },
    InvalidRate { file: Seq<char>, rate: Value },
    Conflict(ConflictModel),
}

impl View for SetupError {
    type V = SetupFault;

    open spec fn view(&self) -> SetupFault {
        match *self {
            SetupError::MissingInfo { file } => SetupFault::MissingInfo { file: file@ },
            SetupError::InvalidRate { file, rate } => SetupFault::InvalidRate {
                file: file@,
                rate: rate@,
            },
            SetupError::Conflict(conflict) => SetupFault::Conflict(conflict@),
        }
    }
}

/// The words for an error, where `rate` is the frame rate that it speaks of in words.
pub open spec fn setup_fault_text(fault: SetupFault, rate: Seq<char>) -> Seq<char> {
    match fault {
        SetupFault::MissingInfo { file } => "media info not found for: "@ + file,
        SetupFault::InvalidRate { file, .. } => "media '"@ + file + "' has invalid frame rate: "@
            + rate,
        SetupFault::Conflict(conflict) => conflict_text(conflict),
    }
}

impl SetupError {
    /// The words for this error, where `rate` is the frame rate that it speaks of in words.
    pub fn message(&self, rate: &str) -> (message: String)
        ensures
            message@ == setup_fault_text(self@, rate@),
    {
        match self {
            SetupError::MissingInfo { file } => {
                String::from_str("media info not found for: ").concat(file.as_str())
            },
            SetupError::InvalidRate { file, .. } => {
                String::from_str("media '").concat(file.as_str()).concat(
                    "' has invalid frame rate: ",
                ).concat(rate)
            },
            SetupError::Conflict(conflict) => conflict.message(),
        }
    }
}

/// Whether a frame rate is zero or less.
pub open spec fn is_invalid_rate(rate: Value) -> bool {
    less(rate, Value::Finite { negative: false, units: 0 }) || is_zero(rate)
}

/// The media item of a cue, with what is known of its file.
pub open spec fn cue_item(cue: Cue, infos: Seq<InfoModel>, delay: u32) -> Result<
    ItemModel,
    SetupFault,
> {
    match info_for(infos, cue.file) {
        None => Err(SetupFault::MissingInfo { file: cue.file }),
        Some(info) => if is_invalid_rate(info.frame_rate) {
            Err(SetupFault::InvalidRate { file: cue.file, rate: info.frame_rate })
        } else {
            Ok(
                ItemModel {
                    layer: cue.layer,
                    filename: cue.file,
                    start_tc: cue.start_tc,
                    duration_frames: info.frame_count,
                    fps: info.frame_rate,
                    output_delay_frames: delay,
                },
            )
        },
    }
}

/// The media items of a row of cues. The first cue that has none decides the error.
pub open spec fn cue_items(cues: Seq<Cue>, infos: Seq<InfoModel>, delay: u32) -> Result<
    Seq<ItemModel>,
    SetupFault,
>
    decreases cues.len(),
{
    if cues.len() == 0 {
        Ok(seq![])
    } else {
        match cue_items(cues.drop_last(), infos, delay) {
            Err(fault) => Err(fault),
            Ok(items) => match cue_item(cues.last(), infos, delay) {
                Err(fault) => Err(fault),
                Ok(item) => Ok(items.push(item)),
            },
        }
    }
}

proof fn lemma_first_fault_decides(cues: Seq<Cue>, infos: Seq<InfoModel>, delay: u32, n: int)
    requires
        0 <= n <= cues.len(),
        cue_items(cues.take(n), infos, delay) is Err,
    ensures
        cue_items(cues, infos, delay) == cue_items(cues.take(n), infos, delay),
    decreases cues.len(),
{
    if n < cues.len() {
        assert(cues.drop_last().take(n) =~= cues.take(n));
        lemma_first_fault_decides(cues.drop_last(), infos, delay, n);
    } else {
        assert(cues.take(n) =~= cues);
    }
}

/// Builds the media items of a configuration.
pub fn media_items(
    config: &Config,
    output_delay_frames: u32,
    media_info: &Vec<MediaInfo>,
) -> (items: Result<Vec<MediaItem>, SetupError>)
    ensures
        match items {
            Ok(items) => cue_items(
                cues(config.tracks@),
                info_models(media_info@),
                output_delay_frames,
            ) == Ok::<_, SetupFault>(item_models(items@)),
            Err(error) => cue_items(
                cues(config.tracks@),
                info_models(media_info@),
                output_delay_frames,
            ) == Err::<Seq<ItemModel>, _>(error@),
        },
{
    let places = cue_places(&config.tracks);
    let ghost all = cues(config.tracks@);
    let ghost infos = info_models(media_info@);
    let zero = Float32::from_u32(0);
    proof {
        lemma2_to64();
        lemma_small_single(0);
    }
    let mut items: Vec<MediaItem> = Vec::new();
    let mut k: usize = 0;
    assert(item_models(items@) =~= seq![]);
    while k < places.len()
        invariant
            k <= places@.len(),
            all == cues(config.tracks@),
            infos == info_models(media_info@),
            zero@ == (Value::Finite { negative: false, units: 0 }),
            places_of(config.tracks@, places@, all),
            cue_items(all.take(k as int), infos, output_delay_frames) == Ok::<_, SetupFault>(
                item_models(items@),
            ),
        decreases places.len() - k,
    {
        let place = places[k];
        let track = &config.tracks[place.track];
        let layer_cfg = &track.media[place.media];
        proof {
            assert(all.take(k + 1).drop_last() =~= all.take(k as int));
            assert(all.take(k + 1).last() == cue_of(*track, place.media as int));
        }
        let info = match find_info(media_info, &layer_cfg.file) {
            Some(i) => &media_info[i],
            None => {
                proof {
                    lemma_first_fault_decides(all, infos, output_delay_frames, k + 1);
                }
                return Err(SetupError::MissingInfo { file: layer_cfg.file.clone() });
            },
        };
        if info.frame_rate.less_than(&zero) || info.frame_rate.is_zero() {
            proof {
                lemma_first_fault_decides(all, infos, output_delay_frames, k + 1);
            }
            return Err(
                SetupError::InvalidRate {
                    file: layer_cfg.file.clone(),
                    rate: info.frame_rate,
                },
            );
        }
        let ghost before = items@;
        let item = MediaItem {
            layer: layer_cfg.layer,
            filename: layer_cfg.file.clone(),
            start_tc: track.tc_start,
            duration_frames: info.frame_count,
            fps: info.frame_rate,
            output_delay_frames,
        };
        items.push(item);
        assert(item_models(items@) =~= item_models(before).push(item@));
        k = k + 1;
    }
    assert(all.take(k as int) =~= all);
    Ok(items)
}

/// The media files of a media item are looked up by their name: the first one that has it is used,
/// and nothing is found only where none has it.
pub proof fn law_info_is_the_first_of_its_name(infos: Seq<InfoModel>, file: Seq<char>)
    ensures
        match info_for(infos, file) {
            Some(info) => info.filename == file && exists|i: int|
                0 <= i < infos.len() && #[trigger] infos[i] == info && forall|k: int|
                    0 <= k < i ==> (#[trigger] infos[k]).filename != file,
            None => forall|k: int| 0 <= k < infos.len() ==> (#[trigger] infos[k]).filename != file,
        },
    decreases infos.len(),
{
    if infos.len() > 0 {
        let rest = infos.drop_first();
        law_info_is_the_first_of_its_name(rest, file);
        if infos[0].filename != file {
            match info_for(infos, file) {
                Some(info) => {
                    let j = choose|j: int|
                        0 <= j < rest.len() && #[trigger] rest[j] == info && forall|k: int|
                            0 <= k < j ==> (#[trigger] rest[k]).filename != file;
                    assert(infos[j + 1] == info);
                    assert forall|k: int| 0 <= k < j + 1 implies (#[trigger] infos[k]).filename
                        != file by {
                        if k > 0 {
                            assert(rest[k - 1] == infos[k]);
                        }
                    }
                },
                None => {
                    assert forall|k: int| 0 <= k < infos.len() implies (
                    #[trigger] infos[k]).filename != file by {
                        if k > 0 {
                            assert(rest[k - 1] == infos[k]);
                        }
                    }
                },
            }
        }
    }
}

/// A frame rate is refused where it is zero or less. What is not a number is not.
pub proof fn law_refused_rates_are_not_positive(rate: Value)
    ensures
        is_invalid_rate(rate) == match rate {
            Value::Nan => false,
            Value::Infinite { negative } => negative,
            Value::Finite { negative, units } => negative || units == 0,
        },
{
}

/// The cues of some tracks and then others are those of the first and then those of the others.
pub proof fn law_cues_come_track_by_track(first: Seq<Track>, second: Seq<Track>)
    ensures
        cues(first + second) == cues(first) + cues(second),
    decreases second.len(),
{
    if second.len() == 0 {
        assert(first + second =~= first);
        assert(cues(first) + cues(second) =~= cues(first));
    } else {
        law_cues_come_track_by_track(first, second.drop_last());
        assert((first + second).drop_last() =~= first + second.drop_last());
        assert((first + second).last() == second.last());
        assert(cues(first + second) =~= cues(first) + cues(second));
    }
}

/// The cues of a track are its media layers, in their order: each one starts at the timecode of
/// the track, and has the layer and the file that it is configured with.
pub proof fn law_every_media_layer_is_a_cue(track: Track)
    ensures
        cues(seq![track]).len() == track.media@.len(),
        forall|j: int|
            0 <= j < track.media@.len() ==> {
                let cue = #[trigger] cues(seq![track])[j];
                &&& cue.start_tc == track.tc_start
                &&& cue.layer == track.media@[j].layer.id()
                &&& cue.file == track.media@[j].file@
            },
{
    assert(seq![track].drop_last() =~= seq![]);
    assert(cues(seq![]) =~= seq![]);
    assert(cues(seq![track]) =~= track_cues(track));
}

/// Where every cue has a media item, there is one for each, in the order of the cues: on the layer
/// of the cue, with its file and its start, with the length and the frame rate that are known of
/// that file, and with the output delay. None of the frame rates is refused.
pub proof fn law_items_bear_what_their_cues_say(
    cues: Seq<Cue>,
    infos: Seq<InfoModel>,
    delay: u32,
    k: int,
)
    requires
        cue_items(cues, infos, delay) is Ok,
        0 <= k < cues.len(),
    ensures
        ({
            let items = cue_items(cues, infos, delay)->Ok_0;
            &&& items.len() == cues.len()
            &&& items[k].layer == cues[k].layer
            &&& items[k].filename == cues[k].file
            &&& items[k].start_tc == cues[k].start_tc
            &&& items[k].output_delay_frames == delay
            &&& info_for(infos, cues[k].file) matches Some(info) && items[k].duration_frames
                == info.frame_count && items[k].fps == info.frame_rate
            &&& !is_invalid_rate(items[k].fps)
        }),
    decreases cues.len(),
{
    lemma_one_item_each(cues, infos, delay);
    if k < cues.len() - 1 {
        law_items_bear_what_their_cues_say(cues.drop_last(), infos, delay, k);
    }
}

proof fn lemma_one_item_each(cues: Seq<Cue>, infos: Seq<InfoModel>, delay: u32)
    requires
        cue_items(cues, infos, delay) is Ok,
    ensures
        cue_items(cues, infos, delay)->Ok_0.len() == cues.len(),
    decreases cues.len(),
{
    if cues.len() > 0 {
        lemma_one_item_each(cues.drop_last(), infos, delay);
    }
}

/// A cue is without fault where something is known of its file, and the frame rate of the file is
/// not refused.
pub open spec fn is_sound(cue: Cue, infos: Seq<InfoModel>) -> bool {
    info_for(infos, cue.file) matches Some(info) && !is_invalid_rate(info.frame_rate)
}

/// The media items are there exactly where every cue is without fault, and otherwise the first cue
/// with a fault is the one that is complained of, by its file.
pub proof fn law_first_faulty_cue_is_reported(cues: Seq<Cue>, infos: Seq<InfoModel>, delay: u32)
    ensures
        match cue_items(cues, infos, delay) {
            Ok(_) => forall|k: int| 0 <= k < cues.len() ==> is_sound(#[trigger] cues[k], infos),
            Err(fault) => exists|k: int|
                0 <= k < cues.len() && !is_sound(#[trigger] cues[k], infos) && (forall|l: int|
                    0 <= l < k ==> is_sound(#[trigger] cues[l], infos)) && match fault {
                    SetupFault::MissingInfo { file } => file == cues[k].file && info_for(
                        infos,
                        file,
                    ) is None,
                    SetupFault::InvalidRate { file, rate } => file == cues[k].file && (info_for(
                        infos,
                        file,
                    ) matches Some(info) && info.frame_rate == rate),
                    SetupFault::Conflict(_) => false,
                },
        },
    decreases cues.len(),
{
    if cues.len() > 0 {
        let before = cues.drop_last();
        law_first_faulty_cue_is_reported(before, infos, delay);
        assert forall|l: int| 0 <= l < before.len() implies #[trigger] before[l] == cues[l] by {}
        let last = cues[cues.len() - 1];
        match cue_items(before, infos, delay) {
            Err(fault) => {
                let k = choose|k: int|
                    0 <= k < before.len() && !is_sound(#[trigger] before[k], infos) && (forall|
                        l: int,
                    |
                        0 <= l < k ==> is_sound(#[trigger] before[l], infos)) && match fault {
                        SetupFault::MissingInfo { file } => file == before[k].file && info_for(
                            infos,
                            file,
                        ) is None,
                        SetupFault::InvalidRate { file, rate } => file == before[k].file && (
                        info_for(infos, file) matches Some(info) && info.frame_rate == rate),
                        SetupFault::Conflict(_) => false,
                    };
                assert(!is_sound(cues[k], infos));
                assert forall|l: int| 0 <= l < k implies is_sound(#[trigger] cues[l], infos) by {
                    assert(is_sound(before[l], infos));
                }
            },
            Ok(_) => {
                assert forall|l: int| 0 <= l < before.len() implies is_sound(
                    #[trigger] cues[l],
                    infos,
                ) by {
                    assert(is_sound(before[l], infos));
                }
                assert(is_sound(last, infos) <==> cue_items(cues, infos, delay) is Ok);
            },
        }
    }
}

/// The words for an error name the file, and the frame rate where it is refused.
pub proof fn law_setup_error_names_the_file(file: Seq<char>, value: Value, rate: Seq<char>)
    ensures
        contains(setup_fault_text(SetupFault::MissingInfo { file }, rate), file),
        contains(setup_fault_text(SetupFault::InvalidRate { file, rate: value }, rate), file),
        contains(setup_fault_text(SetupFault::InvalidRate { file, rate: value }, rate), rate),
{
    let none: Seq<char> = seq![];
    let missing = "media info not found for: "@;
    lemma_contained(missing, file, none);
    assert(missing + file + none =~= missing + file);
    let lead = "media '"@;
    let words = "' has invalid frame rate: "@;
    lemma_contained(lead, file, words + rate);
    assert(lead + file + (words + rate) =~= lead + file + words + rate);
    lemma_contained(lead + file + words, rate, none);
    assert(lead + file + words + rate + none =~= lead + file + words + rate);
}

} // verus!
