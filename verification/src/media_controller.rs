//! Media playback controller that responds to timecode events.

use crate::amcp::{
    begun, pause_command, play_command, stop_command, AmcpClient, MediaInfo, PurposeModel,
};
use crate::config::Config;
use crate::cue::{cue_items, cues, info_models, media_items, SetupError, SetupFault};
use crate::float::{Float32, Value};
use crate::layer::{ascending, layer_models, sorted_layers, LayerModel, LayerState};
use crate::media_item::{
    conflict_free, conflict_of, first_conflict, item_models, overlaps, ItemModel, LayerConflict,
    MediaItem,
};
use crate::timecode_parser::{TimecodeEvent, TimecodePosition};
use std::collections::HashMap;
use vstd::prelude::*;
use vstd::std_specs::hash::{builds_valid_hashers, obeys_key_model};

verus! {

/// A command to the server that changes a layer.
#[derive(Debug, Clone, PartialEq)]
pub enum LayerCommand {
    /// Play a file from a frame on.
    Play { channel: u16, layer: u16, file: String, seek_frame: u32 },
    Pause { channel: u16, layer: u16 },
    Stop { channel: u16, layer: u16 },
}

/// A command to the server, in a specification.
pub enum CommandModel {
    Play { channel: u16, layer: u16, file: Seq<char>, seek_frame: u32 },
    Pause { channel: u16, layer: u16 },
    Stop { channel: u16, layer: u16 },
}

impl View for LayerCommand {
    type V = CommandModel;

    open spec fn view(&self) -> CommandModel {
        match *self {
            LayerCommand::Play { channel, layer, file, seek_frame } => CommandModel::Play {
                channel,
                layer,
                file: file@,
                seek_frame,
            },
            LayerCommand::Pause { channel, layer } => CommandModel::Pause { channel, layer },
            LayerCommand::Stop { channel, layer } => CommandModel::Stop { channel, layer },
        }
    }
}

impl CommandModel {
    /// The layer that a command changes.
    pub open spec fn target_layer(self) -> u16 {
        match self {
            CommandModel::Play { layer, .. } => layer,
            CommandModel::Pause { layer, .. } => layer,
            CommandModel::Stop { layer, .. } => layer,
        }
    }

    /// The state of a layer once the server has carried out a command.
    pub open spec fn result(self, state: LayerModel) -> LayerModel {
        match self {
            CommandModel::Play { file, .. } => LayerModel::Playing { filename: file },
            CommandModel::Pause { .. } => match state {
                LayerModel::Playing { filename } => LayerModel::Paused { filename },
                _ => state,
            },
            CommandModel::Stop { .. } => LayerModel::Stopped,
        }
    }
}

/// The AMCP command that a command to a layer stands for.
pub open spec fn command_text(command: CommandModel) -> Seq<char> {
    match command {
        CommandModel::Play { channel, layer, file, seek_frame } => play_command(
            channel,
            layer,
            file,
            Some(seek_frame),
        ),
        CommandModel::Pause { channel, layer } => pause_command(channel, layer),
        CommandModel::Stop { channel, layer } => stop_command(channel, layer),
    }
}

impl LayerCommand {
    /// Begins to send this command.
    pub fn begin(&self, client: &mut AmcpClient)
        ensures
            final(client)@ == begun(PurposeModel::Act, command_text(self@)),
    {
        match self {
            LayerCommand::Play { channel, layer, file, seek_frame } => {
                client.play(*channel, *layer, file.as_str(), Some(*seek_frame))
            },
            LayerCommand::Pause { channel, layer } => client.pause(*channel, *layer),
            LayerCommand::Stop { channel, layer } => client.stop(*channel, *layer),
        }
    }
}

/// A row of commands.
pub open spec fn command_models(commands: Seq<LayerCommand>) -> Seq<CommandModel> {
    commands.map_values(|command: LayerCommand| command@)
}

/// What a controller knows.
pub struct ControllerModel {
    pub items: Seq<ItemModel>,
    pub channel: u16,
    pub resync_threshold_frames: u32,
    pub server_fps: Value,
    pub layers: Map<u16, LayerModel>,
    pub last_tc_frame: Option<u32>,
    pub was_playing: bool,
}

/// The last of the first `n` items that plays on a layer at a position.
pub open spec fn last_active(
    items: Seq<ItemModel>,
    position: TimecodePosition,
    layer: u16,
    n: nat,
) -> Option<int>
    decreases n,
{
    if n == 0 {
        None
    } else if items[n - 1].layer == layer && items[n - 1].active(position) {
        Some(n - 1)
    } else {
        last_active(items, position, layer, (n - 1) as nat)
    }
}

/// How the layers are brought in line with timecode.
pub enum SyncMode {
    /// Every layer is brought to what it should play.
    Full,
    /// Media starts on stopped layers, and every other layer is left alone.
    Incremental,
    /// Every layer that plays is paused.
    Pause,
}

impl ControllerModel {
    /// The media item that should play on a layer, by its index.
    pub open spec fn target(self, position: TimecodePosition, layer: u16) -> Option<int> {
        last_active(self.items, position, layer, self.items.len())
    }

    /// The layers are those of the media items.
    pub open spec fn wf(self) -> bool {
        forall|l: u16| #[trigger]
            self.layers.contains_key(l) <==> exists|i: int|
                0 <= i < self.items.len() && (#[trigger] self.items[i]).layer == l
    }

    /// The frames that decide what plays at a position can be counted.
    pub open spec fn countable(self, position: TimecodePosition) -> bool {
        forall|i: int|
            0 <= i < self.items.len() ==> (#[trigger] self.items[i]).countable(position)
    }

    /// A position is the first one, or too far from the last one for timecode that just runs.
    pub open spec fn jumped(self, position: TimecodePosition) -> bool {
        match self.last_tc_frame {
            Some(last) => if position.total_frames >= last {
                position.total_frames - last > self.resync_threshold_frames
            } else {
                last - position.total_frames > self.resync_threshold_frames
            },
            None => true,
        }
    }

    /// How the layers are to be brought in line with an event.
    pub open spec fn sync(self, event: TimecodeEvent) -> SyncMode {
        match event {
            TimecodeEvent::Playing(position) => if self.jumped(position) || !self.was_playing {
                SyncMode::Full
            } else {
                SyncMode::Incremental
            },
            TimecodeEvent::Paused(_) => SyncMode::Pause,
        }
    }

    /// The command that a layer needs.
    pub open spec fn wanted(
        self,
        sync: SyncMode,
        position: TimecodePosition,
        layer: u16,
    ) -> Option<CommandModel> {
        let state = self.layers[layer];
        match sync {
            SyncMode::Pause => if state is Playing {
                Some(CommandModel::Pause { channel: self.channel, layer })
            } else {
                None
            },
            _ => match self.target(position, layer) {
                Some(i) => if sync is Full || state is Stopped {
                    Some(
                        CommandModel::Play {
                            channel: self.channel,
                            layer,
                            file: self.items[i].filename,
                            seek_frame: self.items[i].offset(position, self.server_fps),
                        },
                    )
                } else {
                    None
                },
                None => if sync is Full && !(state is Stopped) {
                    Some(CommandModel::Stop { channel: self.channel, layer })
                } else {
                    None
                },
            },
        }
    }

    /// The commands are those that the layers need, in the order of the layers.
    pub open spec fn calls_for(
        self,
        sync: SyncMode,
        position: TimecodePosition,
        commands: Seq<CommandModel>,
    ) -> bool {
        &&& forall|k: int|
            0 <= k < commands.len() ==> self.layers.contains_key(
                (#[trigger] commands[k]).target_layer(),
            ) && self.wanted(sync, position, commands[k].target_layer()) == Some(commands[k])
        &&& forall|l: u16| #[trigger]
            self.layers.contains_key(l) && self.wanted(sync, position, l) is Some ==> exists|k: int|
                0 <= k < commands.len() && (#[trigger] commands[k]).target_layer() == l
        &&& forall|i: int, j: int|
            0 <= i < j < commands.len() ==> (#[trigger] commands[i]).target_layer() < (
            #[trigger] commands[j]).target_layer()
    }

    /// What the controller knows once an event was handled and no command was carried out yet.
    pub open spec fn after_event(self, event: TimecodeEvent) -> ControllerModel {
        ControllerModel {
            last_tc_frame: Some(position_in(event).total_frames),
            was_playing: event is Playing,
            ..self
        }
    }

    /// What the controller knows once the server has carried out a command.
    pub open spec fn after_command(self, command: CommandModel) -> ControllerModel {
        let layer = command.target_layer();
        if self.layers.contains_key(layer) {
            ControllerModel {
                layers: self.layers.insert(layer, command.result(self.layers[layer])),
                ..self
            }
        } else {
            self
        }
    }
}

/// The position of an event.
pub open spec fn position_in(event: TimecodeEvent) -> TimecodePosition {
    match event {
        TimecodeEvent::Playing(position) => position,
        TimecodeEvent::Paused(position) => position,
    }
}

/// Configuration and state for media playback control.
struct MediaConfig {
    /// List of all media items to manage.
    media_items: Vec<MediaItem>,
    /// CasparCG channel number to control.
    channel: u16,
    /// Frame-count threshold beyond which a timecode jump triggers a full resync.
    resync_threshold_frames: u32,
    /// Output frame rate of the CasparCG channel (used for SEEK calculations).
    server_fps: Float32,
}

/// Controller that manages media playback on CasparCG in response to timecode events.
///
/// The controller decides which commands an event calls for. Whoever talks to the server sends
/// them in turn and reports each one that succeeded to [`acknowledge`](Self::acknowledge).
pub struct MediaController {
    config: MediaConfig,
    /// Current playback state of each CasparCG layer, keyed by layer number.
    layer_states: HashMap<u16, LayerState>,
    /// The previous timecode frame, used for skip detection.
    last_tc_frame: Option<u32>,
    /// Whether timecode was playing (vs paused) on the previous event.
    was_playing: bool,
}

impl View for MediaController {
    type V = ControllerModel;

    closed spec fn view(&self) -> ControllerModel {
        ControllerModel {
            items: item_models(self.config.media_items@),
            channel: self.config.channel,
            resync_threshold_frames: self.config.resync_threshold_frames,
            server_fps: self.config.server_fps@,
            layers: layer_models(self.layer_states@),
            last_tc_frame: self.last_tc_frame,
            was_playing: self.was_playing,
        }
    }
}

proof fn lemma_last_active(
    items: Seq<ItemModel>,
    position: TimecodePosition,
    layer: u16,
    n: nat,
)
    ensures
        last_active(items, position, layer, n) matches Some(i) ==> 0 <= i < n && items[i].layer
            == layer && items[i].active(position),
    decreases n,
{
    if n > 0 {
        lemma_last_active(items, position, layer, (n - 1) as nat);
    }
}

/// The commands are those that some layers need, in the order of the layers.
spec fn covers(
    model: ControllerModel,
    sync: SyncMode,
    position: TimecodePosition,
    layers: Seq<u16>,
    commands: Seq<CommandModel>,
) -> bool {
    &&& forall|k: int|
        0 <= k < commands.len() ==> layers.contains((#[trigger] commands[k]).target_layer())
            && model.wanted(sync, position, commands[k].target_layer()) == Some(commands[k])
    &&& forall|u: int|
        0 <= u < layers.len() && model.wanted(sync, position, #[trigger] layers[u]) is Some
            ==> exists|k: int|
            0 <= k < commands.len() && (#[trigger] commands[k]).target_layer() == layers[u]
    &&& forall|i: int, j: int|
        0 <= i < j < commands.len() ==> (#[trigger] commands[i]).target_layer() < (
        #[trigger] commands[j]).target_layer()
}

proof fn lemma_covers_next(
    model: ControllerModel,
    sync: SyncMode,
    position: TimecodePosition,
    layers: Seq<u16>,
    t: int,
    before: Seq<CommandModel>,
    after: Seq<CommandModel>,
)
    requires
        ascending(layers),
        0 <= t < layers.len(),
        covers(model, sync, position, layers.take(t), before),
        match model.wanted(sync, position, layers[t]) {
            Some(command) => command.target_layer() == layers[t] && after == before.push(command),
            None => after == before,
        },
    ensures
        covers(model, sync, position, layers.take(t + 1), after),
{
    let old_layers = layers.take(t);
    let new_layers = layers.take(t + 1);
    assert forall|l: u16| old_layers.contains(l) implies #[trigger] new_layers.contains(l) && l
        < layers[t] by {
        let i = choose|i: int| 0 <= i < t && old_layers[i] == l;
        assert(new_layers[i] == l);
    }
    assert(new_layers[t] == layers[t]);
    assert forall|k: int| 0 <= k < before.len() implies (#[trigger] before[k]).target_layer()
        < layers[t] && new_layers.contains(before[k].target_layer()) by {
        assert(old_layers.contains(before[k].target_layer()));
    }
    assert forall|k: int| 0 <= k < after.len() implies new_layers.contains(
        (#[trigger] after[k]).target_layer(),
    ) && model.wanted(sync, position, after[k].target_layer()) == Some(after[k]) by {
        if k < before.len() {
            assert(after[k] == before[k]);
        }
    }
    assert forall|u: int|
        0 <= u < new_layers.len() && model.wanted(
            sync,
            position,
            #[trigger] new_layers[u],
        ) is Some implies exists|k: int|
        0 <= k < after.len() && (#[trigger] after[k]).target_layer() == new_layers[u] by {
        if u < t {
            assert(old_layers[u] == new_layers[u]);
            let k = choose|k: int|
                0 <= k < before.len() && (#[trigger] before[k]).target_layer() == old_layers[u];
            assert(after[k] == before[k]);
        } else {
            assert(after[after.len() - 1].target_layer() == layers[t]);
        }
    }
    assert forall|i: int, j: int| 0 <= i < j < after.len() implies (
    #[trigger] after[i]).target_layer() < (#[trigger] after[j]).target_layer() by {
        assert(after[i] == before[i]);
        if j < before.len() {
            assert(after[j] == before[j]);
        }
    }
}

proof fn lemma_covers_all(
    model: ControllerModel,
    sync: SyncMode,
    position: TimecodePosition,
    layers: Seq<u16>,
    commands: Seq<CommandModel>,
)
    requires
        forall|l: u16| #[trigger] layers.contains(l) <==> model.layers.contains_key(l),
        covers(model, sync, position, layers, commands),
    ensures
        model.calls_for(sync, position, commands),
{
    assert forall|k: int| 0 <= k < commands.len() implies model.layers.contains_key(
        (#[trigger] commands[k]).target_layer(),
    ) by {
        assert(layers.contains(commands[k].target_layer()));
    }
    assert forall|l: u16| #[trigger]
        model.layers.contains_key(l) && model.wanted(sync, position, l) is Some implies exists|
        k: int,
    |
        0 <= k < commands.len() && (#[trigger] commands[k]).target_layer() == l by {
        assert(layers.contains(l));
        let u = choose|u: int| 0 <= u < layers.len() && layers[u] == l;
        assert(model.wanted(sync, position, layers[u]) is Some);
    }
}

/// The layers of a row of targets.
spec fn target_layers(targets: Seq<Target>) -> Seq<u16> {
    targets.map_values(|target: Target| target.layer)
}

/// The item that should play on a layer.
struct Target {
    layer: u16,
    item: Option<usize>,
}

impl MediaController {
    /// Whether the frames that decide what plays at a position can be counted.
    pub fn is_countable_at(&self, pos: &TimecodePosition) -> (countable: bool)
        ensures
            countable == self@.countable(*pos),
    {
        let items = &self.config.media_items;
        let mut i: usize = 0;
        while i < items.len()
            invariant
                i <= items@.len(),
                *items == self.config.media_items,
                forall|k: int| 0 <= k < i ==> (#[trigger] self@.items[k]).countable(*pos),
            decreases items.len() - i,
        {
            assert(self@.items[i as int] == items@[i as int]@);
            if !items[i].is_countable_at(pos) {
                return false;
            }
            i = i + 1;
        }
        true
    }

    /// Determines which media item (if any) should be playing on a layer at the given timecode.
    fn target(&self, pos: &TimecodePosition, layer: u16) -> (item: Option<usize>)
        requires
            self@.countable(*pos),
        ensures
            match item {
                Some(i) => self@.target(*pos, layer) == Some(i as int) && i
                    < self.config.media_items@.len() && self@.items[i as int].active(*pos),
                None => self@.target(*pos, layer) is None,
            },
    {
        let items = &self.config.media_items;
        let mut item: Option<usize> = None;
        let mut i: usize = 0;
        while i < items.len()
            invariant
                i <= items@.len(),
                *items == self.config.media_items,
                self@.countable(*pos),
                match item {
                    Some(k) => last_active(self@.items, *pos, layer, i as nat) == Some(k as int),
                    None => last_active(self@.items, *pos, layer, i as nat) is None,
                },
            decreases items.len() - i,
        {
            assert(self@.items[i as int] == items@[i as int]@);
            if *items[i].layer == layer && items[i].is_active_at(pos) {
                item = Some(i);
            }
            i = i + 1;
        }
        proof {
            lemma_last_active(self@.items, *pos, layer, i as nat);
        }
        item
    }

    /// The targets are those of all layers, in the order of the layers.
    spec fn targets_at(&self, pos: TimecodePosition, targets: Seq<Target>) -> bool {
        &&& ascending(target_layers(targets))
        &&& forall|l: u16| #[trigger]
            target_layers(targets).contains(l) <==> self@.layers.contains_key(l)
        &&& forall|t: int|
            0 <= t < targets.len() ==> match (#[trigger] targets[t]).item {
                Some(i) => self@.target(pos, targets[t].layer) == Some(i as int) && i
                    < self.config.media_items@.len() && self@.items[i as int].active(pos),
                None => self@.target(pos, targets[t].layer) is None,
            }
    }

    /// Determines which media (if any) should be playing on each layer at the given timecode.
    fn compute_targets(&self, pos: &TimecodePosition) -> (targets: Vec<Target>)
        requires
            self@.countable(*pos),
        ensures
            self.targets_at(*pos, targets@),
    {
        let layers = sorted_layers(&self.layer_states);
        let mut targets: Vec<Target> = Vec::new();
        let mut t: usize = 0;
        while t < layers.len()
            invariant
                t <= layers@.len(),
                self@.countable(*pos),
                targets@.len() == t,
                forall|u: int| 0 <= u < t ==> (#[trigger] targets@[u]).layer == layers@[u],
                forall|u: int|
                    0 <= u < t ==> match (#[trigger] targets@[u]).item {
                        Some(i) => self@.target(*pos, targets@[u].layer) == Some(i as int) && i
                            < self.config.media_items@.len() && self@.items[i as int].active(*pos),
                        None => self@.target(*pos, targets@[u].layer) is None,
                    },
            decreases layers.len() - t,
        {
            let layer: u16 = layers[t];
            let item = self.target(pos, layer);
            targets.push(Target { layer, item });
            t = t + 1;
        }
        proof {
            assert(target_layers(targets@) =~= layers@);
        }
        targets
    }

    /// The command that plays a media item from the frame that a position calls for.
    fn play_command(&self, item: usize, pos: &TimecodePosition, layer: u16) -> (command:
        LayerCommand)
        requires
            item < self.config.media_items@.len(),
            self@.items[item as int].active(*pos),
        ensures
            command@ == (CommandModel::Play {
                channel: self@.channel,
                layer,
                file: self@.items[item as int].filename,
                seek_frame: self@.items[item as int].offset(*pos, self@.server_fps),
            }),
    {
        let media = &self.config.media_items[item];
        assert(self@.items[item as int] == media@);
        LayerCommand::Play {
            channel: self.config.channel,
            layer,
            file: media.filename.clone(),
            seek_frame: media.media_offset(pos, &self.config.server_fps),
        }
    }

    /// Whether a layer is stopped.
    fn is_stopped(&self, layer: u16) -> (stopped: bool)
        requires
            self@.layers.contains_key(layer),
        ensures
            stopped == (self@.layers[layer] is Stopped),
    {
        broadcast use vstd::std_specs::hash::group_hash_axioms;

        match self.layer_states.get(&layer) {
            Some(LayerState::Stopped) => true,
            _ => false,
        }
    }

    /// Performs a full synchronisation of all layers.
    ///
    /// For each layer, stops playback if nothing should be playing, or issues a
    /// play/seek command if a file should be playing.
    fn full_sync(&self, targets: &Vec<Target>, pos: &TimecodePosition) -> (commands: Vec<
        LayerCommand,
    >)
        requires
            self.targets_at(*pos, targets@),
        ensures
            self@.calls_for(SyncMode::Full, *pos, command_models(commands@)),
    {
        let mut commands: Vec<LayerCommand> = Vec::new();
        let ghost layers = target_layers(targets@);
        let mut t: usize = 0;
        while t < targets.len()
            invariant
                t <= targets@.len(),
                layers == target_layers(targets@),
                self.targets_at(*pos, targets@),
                covers(
                    self@,
                    SyncMode::Full,
                    *pos,
                    layers.take(t as int),
                    command_models(commands@),
                ),
            decreases targets.len() - t,
        {
            let layer: u16 = targets[t].layer;
            let ghost before = command_models(commands@);
            proof {
                assert(layers[t as int] == layer);
                assert(layers.contains(layer));
            }
            match targets[t].item {
                Some(item) => {
                    let command = self.play_command(item, pos, layer);
                    commands.push(command);
                    assert(command_models(commands@) =~= before.push(command@));
                },
                None => {
                    if !self.is_stopped(layer) {
                        let command = LayerCommand::Stop { channel: self.config.channel, layer };
                        commands.push(command);
                        assert(command_models(commands@) =~= before.push(command@));
                    }
                },
            }
            proof {
                lemma_covers_next(
                    self@,
                    SyncMode::Full,
                    *pos,
                    layers,
                    t as int,
                    before,
                    command_models(commands@),
                );
            }
            t = t + 1;
        }
        proof {
            assert(layers.take(t as int) =~= layers);
            lemma_covers_all(self@, SyncMode::Full, *pos, layers, command_models(commands@));
        }
        commands
    }

    /// Performs an incremental sync during normal playback.
    ///
    /// Only starts media on layers that are currently stopped but should be
    /// playing. Already-playing layers are left untouched.
    fn start_new_media(&self, targets: &Vec<Target>, pos: &TimecodePosition) -> (commands: Vec<
        LayerCommand,
    >)
        requires
            self.targets_at(*pos, targets@),
        ensures
            self@.calls_for(SyncMode::Incremental, *pos, command_models(commands@)),
    {
        let mut commands: Vec<LayerCommand> = Vec::new();
        let ghost layers = target_layers(targets@);
        let mut t: usize = 0;
        while t < targets.len()
            invariant
                t <= targets@.len(),
                layers == target_layers(targets@),
                self.targets_at(*pos, targets@),
                covers(
                    self@,
                    SyncMode::Incremental,
                    *pos,
                    layers.take(t as int),
                    command_models(commands@),
                ),
            decreases targets.len() - t,
        {
            let layer: u16 = targets[t].layer;
            let ghost before = command_models(commands@);
            proof {
                assert(layers[t as int] == layer);
                assert(layers.contains(layer));
            }
            let stopped: bool = self.is_stopped(layer);
            match targets[t].item {
                Some(item) => {
                    if stopped {
                        let command = self.play_command(item, pos, layer);
                        commands.push(command);
                        assert(command_models(commands@) =~= before.push(command@));
                    }
                },
                None => {},
            }
            proof {
                lemma_covers_next(
                    self@,
                    SyncMode::Incremental,
                    *pos,
                    layers,
                    t as int,
                    before,
                    command_models(commands@),
                );
            }
            t = t + 1;
        }
        proof {
            assert(layers.take(t as int) =~= layers);
            lemma_covers_all(self@, SyncMode::Incremental, *pos, layers, command_models(commands@));
        }
        commands
    }

    /// Whether playing timecode at a position leads to a full sync of all layers.
    pub fn resyncs_at(&self, pos: &TimecodePosition) -> (resync: bool)
        ensures
            resync == (self@.sync(TimecodeEvent::Playing(*pos)) is Full),
    {
        let skipped: bool = match self.last_tc_frame {
            Some(prev) => {
                let delta: u32 = if pos.total_frames >= prev {
                    pos.total_frames - prev
                } else {
                    prev - pos.total_frames
                };
                delta > self.config.resync_threshold_frames
            },
            None => true,  // First frame, treat as skip to do initial sync
        };
        skipped || !self.was_playing
    }

    /// Handles timecode playing.
    ///
    /// If a timecode jump is detected (beyond the configured threshold) or timecode was
    /// previously paused performs a full sync of all layers. Otherwise, performs a partial
    /// sync that only starts new media.
    fn handle_playing(&mut self, pos: &TimecodePosition) -> (commands: Vec<LayerCommand>)
        requires
            old(self)@.countable(*pos),
        ensures
            old(self)@.calls_for(
                old(self)@.sync(TimecodeEvent::Playing(*pos)),
                *pos,
                command_models(commands@),
            ),
            final(self)@ == old(self)@.after_event(TimecodeEvent::Playing(*pos)),
    {
        let targets = self.compute_targets(pos);
        let commands = if self.resyncs_at(pos) {
            self.full_sync(&targets, pos)
        } else {
            self.start_new_media(&targets, pos)
        };
        self.last_tc_frame = Some(pos.total_frames);
        self.was_playing = true;
        commands
    }

    /// Handles a pause event by pausing all currently playing layers.
    fn handle_paused(&mut self, pos: &TimecodePosition) -> (commands: Vec<LayerCommand>)
        ensures
            old(self)@.calls_for(SyncMode::Pause, *pos, command_models(commands@)),
            final(self)@ == old(self)@.after_event(TimecodeEvent::Paused(*pos)),
    {
        broadcast use vstd::std_specs::hash::group_hash_axioms;

        let layers = sorted_layers(&self.layer_states);
        let mut commands: Vec<LayerCommand> = Vec::new();
        let mut t: usize = 0;
        while t < layers.len()
            invariant
                t <= layers@.len(),
                *self == *old(self),
                obeys_key_model::<u16>(),
                builds_valid_hashers::<std::hash::RandomState>(),
                ascending(layers@),
                forall|l: u16| #[trigger] layers@.contains(l) <==> self@.layers.contains_key(l),
                covers(
                    self@,
                    SyncMode::Pause,
                    *pos,
                    layers@.take(t as int),
                    command_models(commands@),
                ),
            decreases layers.len() - t,
        {
            let layer: u16 = layers[t];
            let ghost before = command_models(commands@);
            assert(layers@.contains(layer));
            match self.layer_states.get(&layer) {
                Some(LayerState::Playing { .. }) => {
                    let command = LayerCommand::Pause { channel: self.config.channel, layer };
                    commands.push(command);
                    assert(command_models(commands@) =~= before.push(command@));
                },
                _ => {},
            }
            proof {
                lemma_covers_next(
                    self@,
                    SyncMode::Pause,
                    *pos,
                    layers@,
                    t as int,
                    before,
                    command_models(commands@),
                );
            }
            t = t + 1;
        }
        proof {
            assert(layers@.take(t as int) =~= layers@);
            lemma_covers_all(self@, SyncMode::Pause, *pos, layers@, command_models(commands@));
        }
        self.last_tc_frame = Some(pos.total_frames);
        self.was_playing = false;
        commands
    }

    /// Handles a timecode event, returning the AMCP commands to send.
    pub fn handle_event(&mut self, event: &TimecodeEvent) -> (commands: Vec<LayerCommand>)
        requires
            event is Playing ==> old(self)@.countable(position_in(*event)),
        ensures
            old(self)@.calls_for(
                old(self)@.sync(*event),
                position_in(*event),
                command_models(commands@),
            ),
            final(self)@ == old(self)@.after_event(*event),
    {
        match event {
            TimecodeEvent::Playing(pos) => self.handle_playing(pos),
            TimecodeEvent::Paused(pos) => self.handle_paused(pos),
        }
    }

    /// Takes note of a command that the server has carried out.
    pub fn acknowledge(&mut self, command: &LayerCommand)
        ensures
            final(self)@ == old(self)@.after_command(command@),
    {
        broadcast use vstd::std_specs::hash::group_hash_axioms;

        let (layer, state): (u16, Option<LayerState>) = match command {
            LayerCommand::Play { layer, file, .. } => {
                (*layer, Some(LayerState::Playing { filename: file.clone() }))
            },
            LayerCommand::Pause { layer, .. } => match self.layer_states.get(layer) {
                Some(LayerState::Playing { filename }) => {
                    (*layer, Some(LayerState::Paused { filename: filename.clone() }))
                },
                _ => (*layer, None),
            },
            LayerCommand::Stop { layer, .. } => (*layer, Some(LayerState::Stopped)),
        };
        let known: bool = self.layer_states.contains_key(&layer);
        match state {
            Some(state) => {
                if known {
                    self.layer_states.insert(layer, state);
                }
            },
            None => {},
        }
        proof {
            assert(self@.layers =~= old(self)@.after_command(command@).layers);
        }
    }

    /// Returns the current layer states, keyed by layer id.
    pub fn layer_states(&self) -> (states: &HashMap<u16, LayerState>)
        ensures
            layer_models(states@) == self@.layers,
    {
        &self.layer_states
    }
}

/// All layers of some media items, none of them playing.
pub open spec fn stopped_layers(items: Seq<ItemModel>) -> Map<u16, LayerModel> {
    Map::new(
        |l: u16| exists|i: int| 0 <= i < items.len() && (#[trigger] items[i]).layer == l,
        |l: u16| LayerModel::Stopped,
    )
}

/// What a controller knows that was set up for a configuration with some media items.
pub open spec fn set_up(
    config: Config,
    items: Seq<ItemModel>,
    server_fps: Value,
) -> ControllerModel {
    ControllerModel {
        items,
        channel: config.caspar_channel,
        resync_threshold_frames: config.resync_threshold_frames,
        server_fps,
        layers: stopped_layers(items),
        last_tc_frame: None,
        was_playing: false,
    }
}

impl MediaController {
    /// Creates a new `MediaController` for a configuration, the frame rate of its channel, and
    /// what is known of its media files.
    pub fn new(
        config: &Config,
        output_delay_frames: u32,
        server_fps: Float32,
        media_info: &Vec<MediaInfo>,
    ) -> (controller: Result<MediaController, SetupError>)
        ensures
            match (
                cue_items(cues(config.tracks@), info_models(media_info@), output_delay_frames),
                controller,
            ) {
                (Err(fault), Err(error)) => error@ == fault,
                (Ok(items), Err(error)) => exists|i: int, j: int| #[trigger]
                    first_conflict(items, i, j) && error@ == SetupFault::Conflict(
                        conflict_of(items[i], items[j]),
                    ),
                (Ok(items), Ok(controller)) => conflict_free(items) && controller@ == (
                ControllerModel {
                    items,
                    channel: config.caspar_channel,
                    resync_threshold_frames: config.resync_threshold_frames,
                    server_fps: server_fps@,
                    layers: stopped_layers(items),
                    last_tc_frame: None,
                    was_playing: false,
                }) && controller@ == set_up(*config, items, server_fps@),
                (Err(_), Ok(_)) => false,
            },
    {
        broadcast use vstd::std_specs::hash::group_hash_axioms;

        let media_items = match media_items(config, output_delay_frames, media_info) {
            Ok(media_items) => media_items,
            Err(error) => {
                return Err(error);
            },
        };
        match Self::check_layer_conflicts(media_items.as_slice()) {
            Ok(()) => {},
            Err(conflict) => {
                return Err(SetupError::Conflict(conflict));
            },
        }
        let ghost items = item_models(media_items@);
        let mut layer_states: HashMap<u16, LayerState> = HashMap::new();
        let mut i: usize = 0;
        while i < media_items.len()
            invariant
                i <= media_items@.len(),
                items == item_models(media_items@),
                obeys_key_model::<u16>(),
                builds_valid_hashers::<std::hash::RandomState>(),
                layer_models(layer_states@) == stopped_layers(items.take(i as int)),
            decreases media_items.len() - i,
        {
            let layer: u16 = *media_items[i].layer;
            let ghost old_states = layer_states@;
            layer_states.insert(layer, LayerState::Stopped);
            proof {
                assert(layer_models(layer_states@) =~= layer_models(old_states).insert(
                    layer,
                    LayerModel::Stopped,
                ));
                let before = items.take(i as int);
                let after = items.take(i + 1);
                assert(after =~= before.push(items[i as int]));
                assert(after[i as int].layer == layer);
                assert forall|k: int| 0 <= k < before.len() implies (#[trigger] before[k])
                    == after[k] by {}
                assert forall|l: u16| #[trigger]
                    stopped_layers(after).contains_key(l) implies l == layer || stopped_layers(
                    before,
                ).contains_key(l) by {
                    let k = choose|k: int| 0 <= k < after.len() && (#[trigger] after[k]).layer == l;
                    if k < before.len() {
                        assert(before[k].layer == l);
                    }
                }
                assert forall|l: u16|
                    l == layer || #[trigger] stopped_layers(before).contains_key(
                        l,
                    ) implies stopped_layers(after).contains_key(l) by {
                    if l != layer {
                        let k = choose|k: int|
                            0 <= k < before.len() && (#[trigger] before[k]).layer == l;
                        assert(after[k].layer == l);
                    }
                }
                assert(stopped_layers(after) =~= stopped_layers(before).insert(
                    layer,
                    LayerModel::Stopped,
                ));
            }
            i = i + 1;
        }
        assert(items.take(i as int) =~= items);
        Ok(
            Self {
                config: MediaConfig {
                    media_items,
                    channel: config.caspar_channel,
                    resync_threshold_frames: config.resync_threshold_frames,
                    server_fps,
                },
                layer_states,
                last_tc_frame: None,
                was_playing: false,
            },
        )
    }

    /// Returns an error if any two media items share a layer and have overlapping active ranges.
    pub fn check_layer_conflicts(media_items: &[MediaItem]) -> (result: Result<(), LayerConflict>)
        ensures
            match result {
                Ok(()) => conflict_free(item_models(media_items@)),
                Err(conflict) => exists|i: int, j: int| #[trigger]
                    first_conflict(item_models(media_items@), i, j) && conflict@ == conflict_of(
                        item_models(media_items@)[i],
                        item_models(media_items@)[j],
                    ),
            },
    {
        let ghost items = item_models(media_items@);
        let mut i: usize = 0;
        while i < media_items.len()
            invariant
                i <= media_items@.len(),
                items == item_models(media_items@),
                forall|x: int, y: int|
                    0 <= x < y < items.len() && x < i ==> !#[trigger] overlaps(items[x], items[y]),
            decreases media_items.len() - i,
        {
            let mut j: usize = i + 1;
            while j < media_items.len()
                invariant
                    i < j <= media_items@.len(),
                    items == item_models(media_items@),
                    forall|x: int, y: int|
                        0 <= x < y < items.len() && (x < i || (x == i && y < j))
                            ==> !#[trigger] overlaps(items[x], items[y]),
                decreases media_items.len() - j,
            {
                let a = &media_items[i];
                let b = &media_items[j];
                proof {
                    assert(items[i as int] == a@);
                    assert(items[j as int] == b@);
                }
                if *a.layer == *b.layer {
                    let a_start = a.start_secs();
                    let a_end = a.end_secs();
                    let b_start = b.start_secs();
                    let b_end = b.end_secs();
                    if a_start.less_than(&b_end) && b_start.less_than(&a_end) {
                        assert(first_conflict(items, i as int, j as int));
                        return Err(
                            LayerConflict {
                                layer: a.layer,
                                first: a.filename.clone(),
                                first_start: a_start,
                                first_end: a_end,
                                second: b.filename.clone(),
                                second_start: b_start,
                                second_end: b_end,
                            },
                        );
                    }
                }
                j = j + 1;
            }
            i = i + 1;
        }
        Ok(())
    }
}

/// What the controller knows once the server has carried out a row of commands.
pub open spec fn after_commands(
    model: ControllerModel,
    commands: Seq<CommandModel>,
) -> ControllerModel
    decreases commands.len(),
{
    if commands.len() == 0 {
        model
    } else {
        after_commands(model, commands.drop_last()).after_command(commands.last())
    }
}

/// A layer that no command changes stays as it is, and nothing but layers is changed. So a
/// command that failed, and is not acknowledged, leaves its layer in the state that it had.
pub proof fn law_other_layers_stay(
    model: ControllerModel,
    commands: Seq<CommandModel>,
    layer: u16,
)
    requires
        forall|k: int|
            0 <= k < commands.len() ==> (#[trigger] commands[k]).target_layer() != layer,
    ensures
        ({
            let after = after_commands(model, commands);
            &&& after.layers.contains_key(layer) == model.layers.contains_key(layer)
            &&& after.layers[layer] == model.layers[layer]
        }),
    decreases commands.len(),
{
    if commands.len() > 0 {
        let before = commands.drop_last();
        assert forall|k: int| 0 <= k < before.len() implies (#[trigger] before[k]).target_layer()
            != layer by {
            assert(before[k] == commands[k]);
        }
        law_other_layers_stay(model, before, layer);
        assert(commands[commands.len() - 1].target_layer() != layer);
    }
}

/// Events and commands change neither the media items nor the layers that there are, and a
/// controller that is well-formed stays so.
pub proof fn law_setup_is_kept(
    model: ControllerModel,
    event: TimecodeEvent,
    commands: Seq<CommandModel>,
)
    ensures
        ({
            let after = after_commands(model.after_event(event), commands);
            &&& after.items == model.items
            &&& after.channel == model.channel
            &&& after.resync_threshold_frames == model.resync_threshold_frames
            &&& after.server_fps == model.server_fps
            &&& after.last_tc_frame == Some(position_in(event).total_frames)
            &&& after.was_playing == (event is Playing)
            &&& after.layers.dom() == model.layers.dom()
            &&& model.wf() ==> after.wf()
        }),
    decreases commands.len(),
{
    if commands.len() > 0 {
        law_setup_is_kept(model, event, commands.drop_last());
        let before = after_commands(model.after_event(event), commands.drop_last());
        let after = after_commands(model.after_event(event), commands);
        assert(after.layers.dom() =~= before.layers.dom());
    }
    let after = after_commands(model.after_event(event), commands);
    if model.wf() {
        assert forall|l: u16| #[trigger] after.layers.contains_key(l) <==> exists|i: int|
            0 <= i < after.items.len() && (#[trigger] after.items[i]).layer == l by {
            assert(after.layers.contains_key(l) == after.layers.dom().contains(l));
            assert(model.layers.contains_key(l) == model.layers.dom().contains(l));
        }
    }
}

/// A controller that was set up is well-formed.
pub proof fn law_new_controller_is_well_formed(model: ControllerModel)
    requires
        model.layers == stopped_layers(model.items),
    ensures
        model.wf(),
{
}

/// The file that a layer plays or is paused with.
pub open spec fn file_on(state: LayerModel) -> Option<Seq<char>> {
    match state {
        LayerModel::Stopped => None,
        LayerModel::Playing { filename } => Some(filename),
        LayerModel::Paused { filename } => Some(filename),
    }
}

impl ControllerModel {
    /// Some media item brings a file to a layer.
    pub open spec fn brings(self, file: Seq<char>, layer: u16) -> bool {
        exists|i: int|
            0 <= i < self.items.len() && (#[trigger] self.items[i]).layer == layer
                && self.items[i].filename == file
    }

    /// Every layer plays or is paused only with a file that is configured for that layer.
    pub open spec fn plays_own_files(self) -> bool {
        forall|l: u16| #[trigger]
            self.layers.contains_key(l) ==> (file_on(self.layers[l]) matches Some(file)
                ==> self.brings(file, l))
    }
}

/// A controller that was set up plays no file of another layer, as it plays none.
pub proof fn law_new_controller_plays_own_files(model: ControllerModel)
    requires
        model.layers == stopped_layers(model.items),
    ensures
        model.plays_own_files(),
{
}

/// A layer never plays, nor is paused with, a file that is not configured for that very layer,
/// whichever of the commands that an event calls for were carried out, and in whatever order.
pub proof fn law_layers_play_own_files(
    model: ControllerModel,
    event: TimecodeEvent,
    commands: Seq<CommandModel>,
    done: Seq<CommandModel>,
)
    requires
        model.plays_own_files(),
        model.calls_for(model.sync(event), position_in(event), commands),
        forall|k: int| 0 <= k < done.len() ==> commands.contains(#[trigger] done[k]),
    ensures
        after_commands(model.after_event(event), done).plays_own_files(),
    decreases done.len(),
{
    if done.len() > 0 {
        let others = done.drop_last();
        assert forall|k: int| 0 <= k < others.len() implies commands.contains(
            #[trigger] others[k],
        ) by {
            assert(others[k] == done[k]);
        }
        law_layers_play_own_files(model, event, commands, others);
        law_setup_is_kept(model, event, others);
        let before = after_commands(model.after_event(event), others);
        let after = after_commands(model.after_event(event), done);
        let command = done[done.len() - 1];
        let k = choose|k: int| 0 <= k < commands.len() && commands[k] == command;
        let layer = command.target_layer();
        assert(commands[k].target_layer() == layer);
        assert(model.wanted(model.sync(event), position_in(event), layer) == Some(command));
        lemma_last_active(model.items, position_in(event), layer, model.items.len());
        assert forall|l: u16| #[trigger] after.layers.contains_key(l) implies (file_on(
            after.layers[l],
        ) matches Some(file) ==> after.brings(file, l)) by {
            assert(before.layers.contains_key(l));
            match file_on(after.layers[l]) {
                Some(file) => {
                    if l == layer && command is Play {
                        let i = model.target(position_in(event), layer)->0;
                        assert(after.items[i].layer == l && after.items[i].filename == file);
                    } else {
                        assert(file_on(before.layers[l]) == Some(file));
                        assert(before.brings(file, l));
                    }
                },
                None => {},
            }
        }
    }
}

/// The state that a layer is in once the command that it needs was carried out.
pub open spec fn settled(
    model: ControllerModel,
    sync: SyncMode,
    position: TimecodePosition,
    layer: u16,
) -> LayerModel {
    match model.wanted(sync, position, layer) {
        Some(command) => command.result(model.layers[layer]),
        None => model.layers[layer],
    }
}

proof fn lemma_carried_out(
    model: ControllerModel,
    start: ControllerModel,
    sync: SyncMode,
    position: TimecodePosition,
    commands: Seq<CommandModel>,
    layer: u16,
    k: int,
)
    requires
        0 <= k < commands.len(),
        commands[k].target_layer() == layer,
        model.wanted(sync, position, layer) == Some(commands[k]),
        start.layers == model.layers,
        start.layers.contains_key(layer),
        forall|i: int, j: int|
            0 <= i < j < commands.len() ==> (#[trigger] commands[i]).target_layer() < (
            #[trigger] commands[j]).target_layer(),
    ensures
        after_commands(start, commands).layers[layer] == settled(model, sync, position, layer),
    decreases commands.len(),
{
    let before = commands.drop_last();
    assert forall|i: int, j: int| 0 <= i < j < before.len() implies (
    #[trigger] before[i]).target_layer() < (#[trigger] before[j]).target_layer() by {
        assert(before[i] == commands[i]);
        assert(before[j] == commands[j]);
    }
    if k == commands.len() - 1 {
        assert forall|i: int| 0 <= i < before.len() implies (#[trigger] before[i]).target_layer()
            != layer by {
            assert(before[i] == commands[i]);
            assert(commands[i].target_layer() < commands[k].target_layer());
        }
        law_other_layers_stay(start, before, layer);
    } else {
        assert(before[k] == commands[k]);
        lemma_carried_out(model, start, sync, position, before, layer, k);
        assert(commands[k].target_layer() < commands[commands.len() - 1].target_layer());
    }
}

/// The channel that a command is for.
pub open spec fn channel_of(command: CommandModel) -> u16 {
    match command {
        CommandModel::Play { channel, .. } => channel,
        CommandModel::Pause { channel, .. } => channel,
        CommandModel::Stop { channel, .. } => channel,
    }
}

/// Every command that an event calls for, to play, to pause or to stop, is for the channel of the
/// controller and for one of its layers, and no two are for the same layer.
pub proof fn law_commands_keep_to_the_channel(
    model: ControllerModel,
    event: TimecodeEvent,
    commands: Seq<CommandModel>,
)
    requires
        model.calls_for(model.sync(event), position_in(event), commands),
    ensures
        forall|k: int|
            0 <= k < commands.len() ==> channel_of(#[trigger] commands[k]) == model.channel
                && model.layers.contains_key(commands[k].target_layer()),
        forall|k: int, l: int|
            0 <= k < l < commands.len() ==> (#[trigger] commands[k]).target_layer() != (
            #[trigger] commands[l]).target_layer(),
{
}

/// When timecode starts, resumes or jumps, every layer on which something should play is told to
/// play it from where timecode stands, also where it plays already. Every other layer is told to
/// stop, unless it is stopped.
pub proof fn law_full_sync_tells_every_layer(
    model: ControllerModel,
    position: TimecodePosition,
    commands: Seq<CommandModel>,
    layer: u16,
)
    requires
        model.sync(TimecodeEvent::Playing(position)) is Full,
        model.calls_for(SyncMode::Full, position, commands),
        model.layers.contains_key(layer),
    ensures
        match model.target(position, layer) {
            Some(i) => commands.contains(
                CommandModel::Play {
                    channel: model.channel,
                    layer,
                    file: model.items[i].filename,
                    seek_frame: model.items[i].offset(position, model.server_fps),
                },
            ),
            None => if model.layers[layer] is Stopped {
                forall|k: int|
                    0 <= k < commands.len() ==> (#[trigger] commands[k]).target_layer() != layer
            } else {
                commands.contains(CommandModel::Stop { channel: model.channel, layer })
            },
        },
{
    lemma_commanded(model, SyncMode::Full, position, commands, layer);
}

/// While timecode just runs, a stopped layer on which something should play is told to play it
/// from where timecode stands, and no other layer is told anything.
pub proof fn law_incremental_sync_tells_stopped_layers(
    model: ControllerModel,
    position: TimecodePosition,
    commands: Seq<CommandModel>,
    layer: u16,
)
    requires
        model.sync(TimecodeEvent::Playing(position)) is Incremental,
        model.calls_for(SyncMode::Incremental, position, commands),
        model.layers.contains_key(layer),
    ensures
        match (model.target(position, layer), model.layers[layer]) {
            (Some(i), LayerModel::Stopped) => commands.contains(
                CommandModel::Play {
                    channel: model.channel,
                    layer,
                    file: model.items[i].filename,
                    seek_frame: model.items[i].offset(position, model.server_fps),
                },
            ),
            _ => forall|k: int|
                0 <= k < commands.len() ==> (#[trigger] commands[k]).target_layer() != layer,
        },
{
    lemma_commanded(model, SyncMode::Incremental, position, commands, layer);
}

/// When timecode pauses, every layer that plays is told to pause, and no other layer is told
/// anything.
pub proof fn law_pause_tells_playing_layers(
    model: ControllerModel,
    position: TimecodePosition,
    commands: Seq<CommandModel>,
    layer: u16,
)
    requires
        model.calls_for(model.sync(TimecodeEvent::Paused(position)), position, commands),
        model.layers.contains_key(layer),
    ensures
        if model.layers[layer] is Playing {
            commands.contains(CommandModel::Pause { channel: model.channel, layer })
        } else {
            forall|k: int|
                0 <= k < commands.len() ==> (#[trigger] commands[k]).target_layer() != layer
        },
{
    lemma_commanded(model, SyncMode::Pause, position, commands, layer);
}

proof fn lemma_commanded(
    model: ControllerModel,
    sync: SyncMode,
    position: TimecodePosition,
    commands: Seq<CommandModel>,
    layer: u16,
)
    requires
        model.calls_for(sync, position, commands),
        model.layers.contains_key(layer),
    ensures
        match model.wanted(sync, position, layer) {
            Some(command) => commands.contains(command),
            None => forall|k: int|
                0 <= k < commands.len() ==> (#[trigger] commands[k]).target_layer() != layer,
        },
{
    if model.wanted(sync, position, layer) is Some {
        let k = choose|k: int|
            0 <= k < commands.len() && (#[trigger] commands[k]).target_layer() == layer;
        assert(commands[k] == model.wanted(sync, position, layer)->0);
    }
}

/// Once all commands that an event calls for were carried out, every layer is in the state that
/// its own command leaves it in.
pub proof fn law_commands_settle_every_layer(
    model: ControllerModel,
    event: TimecodeEvent,
    commands: Seq<CommandModel>,
    layer: u16,
)
    requires
        model.calls_for(model.sync(event), position_in(event), commands),
        model.layers.contains_key(layer),
    ensures
        after_commands(model.after_event(event), commands).layers[layer] == settled(
            model,
            model.sync(event),
            position_in(event),
            layer,
        ),
{
    let sync = model.sync(event);
    let position = position_in(event);
    let start = model.after_event(event);
    if model.wanted(sync, position, layer) is Some {
        let k = choose|k: int|
            0 <= k < commands.len() && (#[trigger] commands[k]).target_layer() == layer;
        lemma_carried_out(model, start, sync, position, commands, layer, k);
    } else {
        assert forall|k: int| 0 <= k < commands.len() implies (
        #[trigger] commands[k]).target_layer() != layer by {}
        law_other_layers_stay(start, commands, layer);
    }
}

/// After a full synchronisation every layer plays the file that it should play, and nothing where
/// it should play nothing.
pub proof fn law_full_sync_plays_what_should_play(
    model: ControllerModel,
    position: TimecodePosition,
    commands: Seq<CommandModel>,
    layer: u16,
)
    requires
        model.sync(TimecodeEvent::Playing(position)) is Full,
        model.calls_for(SyncMode::Full, position, commands),
        model.layers.contains_key(layer),
    ensures
        after_commands(
            model.after_event(TimecodeEvent::Playing(position)),
            commands,
        ).layers[layer] == match model.target(position, layer) {
            Some(i) => LayerModel::Playing { filename: model.items[i].filename },
            None => LayerModel::Stopped,
        },
{
    law_commands_settle_every_layer(model, TimecodeEvent::Playing(position), commands, layer);
}

/// After a pause no layer plays: those that played are paused with their file, and the others are
/// left alone.
pub proof fn law_pause_leaves_no_layer_playing(
    model: ControllerModel,
    position: TimecodePosition,
    commands: Seq<CommandModel>,
    layer: u16,
)
    requires
        model.calls_for(SyncMode::Pause, position, commands),
        model.layers.contains_key(layer),
    ensures
        after_commands(
            model.after_event(TimecodeEvent::Paused(position)),
            commands,
        ).layers[layer] == match model.layers[layer] {
            LayerModel::Playing { filename } => LayerModel::Paused { filename },
            state => state,
        },
{
    law_commands_settle_every_layer(model, TimecodeEvent::Paused(position), commands, layer);
}

/// After an incremental synchronisation a layer that was stopped plays what should play on it, and
/// every layer that played or was paused is as it was, whether or not something should play on it.
pub proof fn law_incremental_sync_leaves_what_plays(
    model: ControllerModel,
    position: TimecodePosition,
    commands: Seq<CommandModel>,
    layer: u16,
)
    requires
        model.sync(TimecodeEvent::Playing(position)) is Incremental,
        model.calls_for(SyncMode::Incremental, position, commands),
        model.layers.contains_key(layer),
    ensures
        after_commands(
            model.after_event(TimecodeEvent::Playing(position)),
            commands,
        ).layers[layer] == match (model.target(position, layer), model.layers[layer]) {
            (Some(i), LayerModel::Stopped) => LayerModel::Playing {
                filename: model.items[i].filename,
            },
            (_, state) => state,
        },
{
    law_commands_settle_every_layer(model, TimecodeEvent::Playing(position), commands, layer);
}

/// The first event of playing timecode, the first one after a pause, and one that lies further
/// from the last event than the threshold, each lead to a full synchronisation. No other does.
pub proof fn law_full_sync_follows_start_pause_and_jump(
    model: ControllerModel,
    earlier: TimecodeEvent,
    commands: Seq<CommandModel>,
    position: TimecodePosition,
)
    ensures
        model.last_tc_frame is None ==> model.sync(TimecodeEvent::Playing(position)) is Full,
        ({
            let after = after_commands(model.after_event(earlier), commands);
            let last = position_in(earlier).total_frames;
            let distance = if position.total_frames >= last {
                position.total_frames - last
            } else {
                last - position.total_frames
            };
            after.sync(TimecodeEvent::Playing(position)) is Full <==> earlier is Paused || distance
                > model.resync_threshold_frames
        }),
{
    law_setup_is_kept(model, earlier, commands);
}

/// While timecode runs on without a jump and no further layer has something to play, nothing is
/// sent to the server.
pub proof fn law_steady_playback_needs_no_command(
    model: ControllerModel,
    position: TimecodePosition,
    commands: Seq<CommandModel>,
    later: TimecodePosition,
    further: Seq<CommandModel>,
)
    requires
        model.sync(TimecodeEvent::Playing(position)) is Full,
        model.calls_for(SyncMode::Full, position, commands),
        ({
            let after = after_commands(
                model.after_event(TimecodeEvent::Playing(position)),
                commands,
            );
            &&& !after.jumped(later)
            &&& after.calls_for(
                after.sync(TimecodeEvent::Playing(later)),
                later,
                further,
            )
            &&& forall|l: u16| #[trigger]
                model.layers.contains_key(l) ==> (model.target(later, l) is Some
                    ==> model.target(position, l) is Some)
        }),
    ensures
        further.len() == 0,
{
    let event = TimecodeEvent::Playing(position);
    let after = after_commands(model.after_event(event), commands);
    law_setup_is_kept(model, event, commands);
    if further.len() > 0 {
        let layer = further[0].target_layer();
        assert(after.layers.contains_key(layer));
        assert(model.layers.dom().contains(layer));
        law_full_sync_plays_what_should_play(model, position, commands, layer);
        assert(after.target(later, layer) == model.target(later, layer));
        assert(after.wanted(SyncMode::Incremental, later, layer) is None);
    }
}

/// What should play on a layer is the last media item of the layer that is active.
pub proof fn law_target_is_the_last_active_item(
    model: ControllerModel,
    position: TimecodePosition,
    layer: u16,
)
    ensures
        match model.target(position, layer) {
            Some(i) => {
                &&& 0 <= i < model.items.len()
                &&& model.items[i].layer == layer
                &&& model.items[i].active(position)
                &&& forall|j: int|
                    i < j < model.items.len() && (#[trigger] model.items[j]).layer == layer
                        ==> !model.items[j].active(position)
            },
            None => forall|j: int|
                0 <= j < model.items.len() && (#[trigger] model.items[j]).layer == layer
                    ==> !model.items[j].active(position),
        },
{
    lemma_none_beyond(model.items, position, layer, model.items.len());
    lemma_last_active(model.items, position, layer, model.items.len());
}

proof fn lemma_none_beyond(items: Seq<ItemModel>, position: TimecodePosition, layer: u16, n: nat)
    requires
        n <= items.len(),
    ensures
        forall|j: int|
            match last_active(items, position, layer, n) {
                Some(i) => i,
                None => -1,
            } < j < n && (#[trigger] items[j]).layer == layer ==> !items[j].active(position),
    decreases n,
{
    if n > 0 {
        lemma_none_beyond(items, position, layer, (n - 1) as nat);
    }
}

/// A controller that was set up controls the configured channel, and is told of a jump by the
/// configured threshold. It has seen no timecode yet.
pub proof fn law_new_controller_follows_the_configuration(
    config: Config,
    items: Seq<ItemModel>,
    server_fps: Value,
)
    ensures
        ({
            let model = set_up(config, items, server_fps);
            &&& model.channel == config.caspar_channel
            &&& model.resync_threshold_frames == config.resync_threshold_frames
            &&& model.server_fps == server_fps
            &&& model.items == items
            &&& model.layers == stopped_layers(items)
            &&& model.last_tc_frame is None
            &&& !model.was_playing
        }),
{
}

/// Whatever happens, every command that is ever called for is for the configured channel.
pub proof fn law_commands_keep_to_the_configured_channel(
    config: Config,
    items: Seq<ItemModel>,
    server_fps: Value,
    earlier: Seq<(TimecodeEvent, Seq<CommandModel>)>,
    event: TimecodeEvent,
    commands: Seq<CommandModel>,
)
    requires
        ({
            let model = after_history(set_up(config, items, server_fps), earlier);
            model.calls_for(model.sync(event), position_in(event), commands)
        }),
    ensures
        forall|k: int|
            0 <= k < commands.len() ==> channel_of(#[trigger] commands[k])
                == config.caspar_channel,
{
    let model = after_history(set_up(config, items, server_fps), earlier);
    lemma_history_keeps_the_channel(set_up(config, items, server_fps), earlier);
    law_commands_keep_to_the_channel(model, event, commands);
}

/// What a controller knows after a row of events, each with the commands that were carried out.
pub open spec fn after_history(
    model: ControllerModel,
    history: Seq<(TimecodeEvent, Seq<CommandModel>)>,
) -> ControllerModel
    decreases history.len(),
{
    if history.len() == 0 {
        model
    } else {
        let before = after_history(model, history.drop_last());
        after_commands(before.after_event(history.last().0), history.last().1)
    }
}

proof fn lemma_history_keeps_the_channel(
    model: ControllerModel,
    history: Seq<(TimecodeEvent, Seq<CommandModel>)>,
)
    ensures
        after_history(model, history).channel == model.channel,
    decreases history.len(),
{
    if history.len() > 0 {
        lemma_history_keeps_the_channel(model, history.drop_last());
        let before = after_history(model, history.drop_last());
        law_setup_is_kept(before, history.last().0, history.last().1);
    }
}

/// A controller that was set up has the layers of its media items, and all of them are stopped.
pub proof fn law_new_controller_has_stopped_layers(items: Seq<ItemModel>, layer: u16)
    ensures
        stopped_layers(items).contains_key(layer) <==> exists|i: int|
            0 <= i < items.len() && (#[trigger] items[i]).layer == layer,
        stopped_layers(items).contains_key(layer) ==> stopped_layers(items)[layer] is Stopped,
{
}

/// A command changes the state of its own layer alone: to playing its file, to paused with the
/// file that plays, or to stopped.
pub proof fn law_commands_change_their_layer(model: ControllerModel, command: CommandModel)
    requires
        model.layers.contains_key(command.target_layer()),
    ensures
        ({
            let layer = command.target_layer();
            let after = model.after_command(command);
            &&& after.layers.dom() == model.layers.dom()
            &&& forall|l: u16|
                l != layer && #[trigger] model.layers.contains_key(l) ==> after.layers[l]
                    == model.layers[l]
            &&& match command {
                CommandModel::Play { file, .. } => after.layers[layer] == (LayerModel::Playing {
                    filename: file,
                }),
                CommandModel::Stop { .. } => after.layers[layer] is Stopped,
                CommandModel::Pause { .. } => match model.layers[layer] {
                    LayerModel::Playing { filename } => after.layers[layer] == (
                    LayerModel::Paused { filename }),
                    state => after.layers[layer] == state,
                },
            }
        }),
{
    let layer = command.target_layer();
    assert(model.layers.insert(layer, command.result(model.layers[layer])).dom()
        =~= model.layers.dom());
}

/// The frames at a position can be counted exactly where those of every media item can.
pub proof fn law_every_item_is_counted(model: ControllerModel, position: TimecodePosition)
    ensures
        model.countable(position) <==> forall|i: int|
            0 <= i < model.items.len() ==> (#[trigger] model.items[i]).countable(position),
{
}

} // verus!
