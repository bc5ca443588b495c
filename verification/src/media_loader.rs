//! Looking up the media files of a configuration on the server.

use crate::amcp::{amcp_fault_text, AmcpError, AmcpFault, InfoModel, MediaInfo};
use crate::config::Config;
use crate::cue::{
    cue_items, cue_places, cues, info_for, info_models, places_of, Cue, SetupFault,
};
use crate::text::{chars_of, contains, lemma_contained, same};
use vstd::prelude::*;
use vstd::string::StringExecFns;

verus! {

/// The characters of each of some names.
pub open spec fn name_views(names: Seq<String>) -> Seq<Seq<char>> {
    names.map_values(|name: String| name@)
}

/// The files of a row of cues, each of them once, in the order in which they first appear.
pub open spec fn files_of(cues: Seq<Cue>) -> Seq<Seq<char>>
    decreases cues.len(),
{
    if cues.len() == 0 {
        seq![]
    } else {
        let files = files_of(cues.drop_last());
        if files.contains(cues.last().file) {
            files
        } else {
            files.push(cues.last().file)
        }
    }
}

/// A media file that could not be looked up.
#[derive(Debug, Clone)]
pub struct LoadError {
    pub file: String,
    pub error: AmcpError,
}

/// The words for a media file that could not be looked up.
pub open spec fn load_error_text(file: Seq<char>, fault: AmcpFault) -> Seq<char> {
    "media file '"@ + file + "' not found in CasparCG: "@ + amcp_fault_text(fault)
}

impl LoadError {
    /// The words for this error.
    pub fn message(&self) -> (message: String)
        ensures
            message@ == load_error_text(self.file@, self.error@),
    {
        String::from_str("media file '").concat(self.file.as_str()).concat(
            "' not found in CasparCG: ",
        ).concat(self.error.message().as_str())
    }
}

/// What a loader knows.
pub struct LoaderModel {
    pub files: Seq<Seq<char>>,
    pub loaded: Seq<InfoModel>,
}

impl LoaderModel {
    /// The file that is to be looked up next.
    pub open spec fn next(self) -> Option<Seq<char>> {
        if self.loaded.len() < self.files.len() {
            Some(self.files[self.loaded.len() as int])
        } else {
            None
        }
    }

    /// What is known once the next file was found.
    pub open spec fn after_found(self, info: InfoModel) -> LoaderModel {
        match self.next() {
            Some(file) => LoaderModel {
                loaded: self.loaded.push(InfoModel { filename: file, ..info }),
                ..self
            },
            None => self,
        }
    }
}

/// Fetch and validate all media files referenced in a configuration from CasparCG.
///
/// The loader says which file comes [next](Self::next_file), and is told what the server replied.
pub struct MediaLoader {
    files: Vec<String>,
    loaded: Vec<MediaInfo>,
}

impl View for MediaLoader {
    type V = LoaderModel;

    closed spec fn view(&self) -> LoaderModel {
        LoaderModel { files: name_views(self.files@), loaded: info_models(self.loaded@) }
    }
}

/// Whether a name is among others.
fn is_listed(names: &Vec<String>, name: &String) -> (listed: bool)
    ensures
        listed == name_views(names@).contains(name@),
{
    let chars = chars_of(name.as_str());
    let ghost views = name_views(names@);
    let mut i: usize = 0;
    while i < names.len()
        invariant
            i <= names@.len(),
            chars@ == name@,
            views == name_views(names@),
            forall|k: int| 0 <= k < i ==> #[trigger] views[k] != name@,
        decreases names.len() - i,
    {
        assert(views[i as int] == names@[i as int]@);
        if same(&chars_of(names[i].as_str()), &chars) {
            return true;
        }
        i = i + 1;
    }
    false
}

impl MediaLoader {
    /// A loader that has yet to look up every file of a configuration.
    pub fn new(config: &Config) -> (loader: MediaLoader)
        ensures
            loader@ == (LoaderModel { files: files_of(cues(config.tracks@)), loaded: seq![] }),
    {
        let places = cue_places(&config.tracks);
        let ghost all = cues(config.tracks@);
        let mut files: Vec<String> = Vec::new();
        let mut k: usize = 0;
        assert(name_views(files@) =~= seq![]);
        while k < places.len()
            invariant
                k <= places@.len(),
                all == cues(config.tracks@),
                places_of(config.tracks@, places@, all),
                name_views(files@) == files_of(all.take(k as int)),
            decreases places.len() - k,
        {
            let place = places[k];
            let file = &config.tracks[place.track].media[place.media].file;
            proof {
                assert(all.take(k + 1).drop_last() =~= all.take(k as int));
                assert(all.take(k + 1).last().file == file@);
            }
            if !is_listed(&files, file) {
                let ghost before = files@;
                let name = file.clone();
                files.push(name);
                assert(name_views(files@) =~= name_views(before).push(file@));
            }
            k = k + 1;
        }
        assert(all.take(k as int) =~= all);
        let loaded: Vec<MediaInfo> = Vec::new();
        assert(info_models(loaded@) =~= seq![]);
        MediaLoader { files, loaded }
    }

    /// The file to look up next, where one is left.
    pub fn next_file(&self) -> (file: Option<&String>)
        ensures
            match file {
                Some(file) => self@.next() == Some(file@),
                None => self@.next() is None,
            },
    {
        if self.loaded.len() < self.files.len() {
            Some(&self.files[self.loaded.len()])
        } else {
            None
        }
    }

    /// Takes note of what the server replied on the file that came next.
    pub fn accept(&mut self, reply: Result<MediaInfo, AmcpError>) -> (result: Result<(), LoadError>)
        ensures
            match reply {
                Ok(info) => result is Ok && final(self)@ == old(self)@.after_found(info@),
                Err(error) => {
                    &&& final(self)@ == old(self)@
                    &&& match (old(self)@.next(), result) {
                        (Some(file), Err(failure)) => failure.file@ == file && failure.error
                            == error,
                        (None, Ok(())) => true,
                        _ => false,
                    }
                },
            },
    {
        if self.loaded.len() >= self.files.len() {
            return Ok(());
        }
        let file = self.files[self.loaded.len()].clone();
        match reply {
            Ok(info) => {
                let ghost before = self.loaded@;
                let info = MediaInfo { filename: file, ..info };
                self.loaded.push(info);
                assert(info_models(self.loaded@) =~= info_models(before).push(info@));
                Ok(())
            },
            Err(error) => Err(LoadError { file, error }),
        }
    }

    /// The media files that were found so far.
    pub fn media_info(&self) -> (infos: &Vec<MediaInfo>)
        ensures
            info_models(infos@) == self@.loaded,
    {
        &self.loaded
    }
}

/// What a loader knows after the server has found some files.
pub open spec fn after_all_found(model: LoaderModel, infos: Seq<InfoModel>) -> LoaderModel
    decreases infos.len(),
{
    if infos.len() == 0 {
        model
    } else {
        after_all_found(model, infos.drop_last()).after_found(infos.last())
    }
}

/// The files that were found are the first ones that were asked for.
pub open spec fn in_order(model: LoaderModel) -> bool {
    &&& model.loaded.len() <= model.files.len()
    &&& forall|i: int|
        0 <= i < model.loaded.len() ==> (#[trigger] model.loaded[i]).filename == model.files[i]
}

proof fn lemma_found_in_order(model: LoaderModel, infos: Seq<InfoModel>)
    requires
        in_order(model),
    ensures
        in_order(after_all_found(model, infos)),
        after_all_found(model, infos).files == model.files,
    decreases infos.len(),
{
    if infos.len() > 0 {
        lemma_found_in_order(model, infos.drop_last());
    }
}

proof fn lemma_info_found(infos: Seq<InfoModel>, i: int)
    requires
        0 <= i < infos.len(),
    ensures
        info_for(infos, infos[i].filename) is Some,
    decreases infos.len(),
{
    if infos[0].filename != infos[i].filename {
        assert(infos.drop_first()[i - 1] == infos[i]);
        lemma_info_found(infos.drop_first(), i - 1);
    }
}

/// Every file of a cue is asked for, and no file twice.
pub proof fn law_every_file_is_asked_for_once(cues: Seq<Cue>)
    ensures
        forall|k: int| 0 <= k < cues.len() ==> files_of(cues).contains((#[trigger] cues[k]).file),
        forall|f: Seq<char>| #[trigger]
            files_of(cues).contains(f) ==> exists|k: int|
                0 <= k < cues.len() && (#[trigger] cues[k]).file == f,
        files_of(cues).no_duplicates(),
    decreases cues.len(),
{
    if cues.len() > 0 {
        let before = cues.drop_last();
        law_every_file_is_asked_for_once(before);
        let files = files_of(before);
        let last = cues.last().file;
        assert forall|f: Seq<char>| files.contains(f) || f == last implies #[trigger] files_of(
            cues,
        ).contains(f) by {
            if files.contains(f) {
                let i = choose|i: int| 0 <= i < files.len() && files[i] == f;
                assert(files_of(cues)[i] == f);
            } else {
                assert(files_of(cues)[files.len() as int] == f);
            }
        }
        assert forall|k: int| 0 <= k < cues.len() implies files_of(cues).contains(
            (#[trigger] cues[k]).file,
        ) by {
            if k < before.len() {
                assert(before[k] == cues[k]);
            }
        }
        assert forall|f: Seq<char>| #[trigger] files_of(cues).contains(f) implies exists|k: int|
            0 <= k < cues.len() && (#[trigger] cues[k]).file == f by {
            let i = choose|i: int| 0 <= i < files_of(cues).len() && files_of(cues)[i] == f;
            if i < files.len() {
                assert(files.contains(f));
                let k = choose|k: int| 0 <= k < before.len() && (#[trigger] before[k]).file == f;
                assert(cues[k] == before[k]);
            } else {
                assert(cues[cues.len() - 1].file == f);
            }
        }
    }
}

/// Once every file was found, no cue lacks its file.
pub proof fn law_loaded_media_is_complete(cues: Seq<Cue>, infos: Seq<InfoModel>, delay: u32)
    requires
        after_all_found(
            LoaderModel { files: files_of(cues), loaded: seq![] },
            infos,
        ).next() is None,
    ensures
        ({
            let loaded = after_all_found(
                LoaderModel { files: files_of(cues), loaded: seq![] },
                infos,
            ).loaded;
            &&& forall|k: int|
                0 <= k < cues.len() ==> info_for(loaded, (#[trigger] cues[k]).file) is Some
            &&& !(cue_items(cues, loaded, delay) matches Err(SetupFault::MissingInfo { .. }))
        }),
{
    let start = LoaderModel { files: files_of(cues), loaded: seq![] };
    let end = after_all_found(start, infos);
    lemma_found_in_order(start, infos);
    law_every_file_is_asked_for_once(cues);
    assert forall|k: int| 0 <= k < cues.len() implies info_for(
        end.loaded,
        (#[trigger] cues[k]).file,
    ) is Some by {
        let i = choose|i: int| 0 <= i < end.files.len() && end.files[i] == cues[k].file;
        lemma_info_found(end.loaded, i);
    }
    lemma_no_missing_info(cues, end.loaded, delay);
}

proof fn lemma_no_missing_info(cues: Seq<Cue>, infos: Seq<InfoModel>, delay: u32)
    requires
        forall|k: int| 0 <= k < cues.len() ==> info_for(infos, (#[trigger] cues[k]).file) is Some,
    ensures
        !(cue_items(cues, infos, delay) matches Err(SetupFault::MissingInfo { .. })),
    decreases cues.len(),
{
    if cues.len() > 0 {
        assert forall|k: int| 0 <= k < cues.drop_last().len() implies info_for(
            infos,
            (#[trigger] cues.drop_last()[k]).file,
        ) is Some by {
            assert(cues.drop_last()[k] == cues[k]);
        }
        lemma_no_missing_info(cues.drop_last(), infos, delay);
        assert(info_for(infos, cues[cues.len() - 1].file) is Some);
    }
}

/// The files of some cues and then another one are those of the first, and then the file of the
/// other one, unless it is among them.
pub proof fn law_files_come_as_they_first_appear(cues: Seq<Cue>, cue: Cue)
    ensures
        files_of(cues.push(cue)) == if exists|k: int|
            0 <= k < cues.len() && (#[trigger] cues[k]).file == cue.file {
            files_of(cues)
        } else {
            files_of(cues).push(cue.file)
        },
{
    assert(cues.push(cue).drop_last() =~= cues);
    law_every_file_is_asked_for_once(cues);
    if exists|k: int| 0 <= k < cues.len() && (#[trigger] cues[k]).file == cue.file {
        let k = choose|k: int| 0 <= k < cues.len() && (#[trigger] cues[k]).file == cue.file;
        assert(files_of(cues).contains(cues[k].file));
    }
}

/// What the server replies on the files is kept in the order in which they were asked for, each
/// under the name that was asked for. Replies beyond the last file are not kept.
pub proof fn law_replies_are_kept_by_name(files: Seq<Seq<char>>, infos: Seq<InfoModel>)
    ensures
        ({
            let end = after_all_found(LoaderModel { files, loaded: seq![] }, infos);
            &&& end.files == files
            &&& end.loaded.len() == if infos.len() < files.len() {
                infos.len()
            } else {
                files.len()
            }
            &&& forall|i: int|
                0 <= i < end.loaded.len() ==> {
                    &&& (#[trigger] end.loaded[i]).filename == files[i]
                    &&& end.loaded[i].media_type == infos[i].media_type
                    &&& end.loaded[i].frame_count == infos[i].frame_count
                    &&& end.loaded[i].frame_rate == infos[i].frame_rate
                }
            &&& match end.next() {
                Some(file) => infos.len() < files.len() && file == files[infos.len() as int],
                None => infos.len() >= files.len(),
            }
        }),
    decreases infos.len(),
{
    if infos.len() > 0 {
        law_replies_are_kept_by_name(files, infos.drop_last());
    }
}

/// The words for a file that could not be looked up name the file and the cause.
pub proof fn law_load_error_names_file_and_cause(file: Seq<char>, fault: AmcpFault)
    ensures
        contains(
            load_error_text(file, fault),
            "'"@ + file + "' not found in CasparCG: "@ + amcp_fault_text(fault),
        ),
{
    reveal_strlit("media file '");
    reveal_strlit("'");
    let start = "media file '"@;
    let words = "' not found in CasparCG: "@ + amcp_fault_text(fault);
    let subject = "'"@ + file + "' not found in CasparCG: "@ + amcp_fault_text(fault);
    assert(start =~= start.drop_last() + "'"@);
    assert(subject =~= "'"@ + file + words);
    assert(load_error_text(file, fault) =~= start + file + words);
    assert(start + file + words =~= start.drop_last() + subject + seq![]);
    lemma_contained(start.drop_last(), subject, seq![]);
}

} // verus!
