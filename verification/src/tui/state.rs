//! TUI-local runtime state, updated via messages from the main loop.

use crate::layer::{ascending, sorted_layers, LayerState};
use crate::timecode_parser::TimecodeEvent;
use std::collections::{HashMap, VecDeque};
use vstd::prelude::*;
use vstd::string::StringExecFns;

verus! {

/// How many log entries are kept.
pub const MAX_LOGS: usize = 200;

/// Severity of a log entry.
#[derive(Debug, Clone, Copy, PartialEq, Eq, Structural)]
pub enum LogLevel {
    Error,
    Warn,
    Info,
    Debug,
    Trace,
}

/// Log entry for display in the TUI log panel.
#[derive(Debug, Clone)]
pub struct LogEntry {
    pub time: String,
    pub level: LogLevel,
    pub message: String,
}

/// Status of the timecode feed, for display in the TUI.
#[derive(Debug, Clone, Copy, PartialEq, Eq, Structural)]
pub enum TcStatus {
    Playing,
    Paused,
}

/// A layer, for display in the TUI.
#[derive(Debug, Clone)]
pub struct LayerDisplay {
    pub id: u16,
    pub state: LayerState,
}

/// The layers of a row of displays.
pub open spec fn display_ids(displays: Seq<LayerDisplay>) -> Seq<u16> {
    displays.map_values(|display: LayerDisplay| display.id)
}

/// Builds a sorted list of [`LayerDisplay`] from the media controller's layer states.
pub fn layer_displays(states: &HashMap<u16, LayerState>) -> (displays: Vec<LayerDisplay>)
    ensures
        ascending(display_ids(displays@)),
        forall|l: u16| #[trigger]
            display_ids(displays@).contains(l) <==> states@.contains_key(l),
        forall|k: int|
            0 <= k < displays@.len() ==> (#[trigger] displays@[k]).state@
                == states@[displays@[k].id]@,
{
    broadcast use vstd::std_specs::hash::group_hash_axioms;

    let ids = sorted_layers(states);
    let mut displays: Vec<LayerDisplay> = Vec::new();
    let mut k: usize = 0;
    while k < ids.len()
        invariant
            k <= ids@.len(),
            vstd::std_specs::hash::obeys_key_model::<u16>(),
            vstd::std_specs::hash::builds_valid_hashers::<std::hash::RandomState>(),
            forall|l: u16| #[trigger] ids@.contains(l) <==> states@.contains_key(l),
            display_ids(displays@) == ids@.take(k as int),
            forall|i: int|
                0 <= i < k ==> (#[trigger] displays@[i]).state@ == states@[displays@[i].id]@,
        decreases ids.len() - k,
    {
        let id: u16 = ids[k];
        assert(ids@.contains(id));
        let ghost before = displays@;
        match states.get(&id) {
            Some(state) => {
                displays.push(LayerDisplay { id, state: state.copied() });
            },
            None => {},
        }
        proof {
            assert(display_ids(displays@) =~= display_ids(before).push(id));
            assert(ids@.take(k + 1) =~= ids@.take(k as int).push(id));
        }
        k = k + 1;
    }
    assert(ids@.take(k as int) =~= ids@);
    displays
}

/// Message to update the UI state.
#[derive(Debug, Clone)]
pub enum UiMessage {
    Timecode { tc: String, status: TcStatus },
    Layers(Vec<LayerDisplay>),
    Log(LogEntry),
}

/// The message that shows an event.
pub fn timecode_message(event: &TimecodeEvent) -> (message: UiMessage)
    ensures
        message matches UiMessage::Timecode { tc, status } && match *event {
            TimecodeEvent::Playing(position) => tc@ == position.text() && status
                == TcStatus::Playing,
            TimecodeEvent::Paused(position) => tc@ == position.text() && status
                == TcStatus::Paused,
        },
{
    match event {
        TimecodeEvent::Playing(position) => UiMessage::Timecode {
            tc: position.to_text(),
            status: TcStatus::Playing,
        },
        TimecodeEvent::Paused(position) => UiMessage::Timecode {
            tc: position.to_text(),
            status: TcStatus::Paused,
        },
    }
}

/// The log with one more entry, which comes first. The last entry gives way where there would be
/// more than [`MAX_LOGS`].
pub open spec fn logged(logs: Seq<LogEntry>, entry: LogEntry) -> Seq<LogEntry> {
    let all = seq![entry] + logs;
    if all.len() > MAX_LOGS {
        all.drop_last()
    } else {
        all
    }
}

/// What the TUI shows.
#[derive(Debug, Clone)]
pub struct AppState {
    /// Current timecode string, e.g. `"01:02:34:15"`.
    pub tc: String,
    pub tc_status: TcStatus,
    /// Layer states, sorted by layer id.
    pub layers: Vec<LayerDisplay>,
    /// Recent log entries, newest first.
    pub logs: VecDeque<LogEntry>,
    /// Nanoseconds between a fixed moment and the last timecode event.
    pub last_tc_update: Option<u128>,
}

impl AppState {
    /// A state that waits for timecode.
    pub fn new() -> (state: Self)
        ensures
            state.tc@ == "--:--:--:--"@,
            state.tc_status == TcStatus::Paused,
            state.layers@ == Seq::<LayerDisplay>::empty(),
            state.logs@ == Seq::<LogEntry>::empty(),
            state.last_tc_update is None,
    {
        Self {
            tc: String::from_str("--:--:--:--"),
            tc_status: TcStatus::Paused,
            layers: Vec::new(),
            logs: VecDeque::new(),
            last_tc_update: None,
        }
    }

    /// Puts an entry before the others.
    pub fn push_log(&mut self, entry: LogEntry)
        ensures
            final(self).logs@ == logged(old(self).logs@, entry),
            final(self).tc == old(self).tc,
            final(self).tc_status == old(self).tc_status,
            final(self).layers == old(self).layers,
            final(self).last_tc_update == old(self).last_tc_update,
    {
        self.logs.push_front(entry);
        if self.logs.len() > MAX_LOGS {
            self.logs.pop_back();
        }
    }

    /// Apply a [`UiMessage`] to update the local state.
    pub fn apply(&mut self, msg: UiMessage, now: u128)
        ensures
            match msg {
                UiMessage::Timecode { tc, status } => *final(self) == (AppState {
                    tc,
                    tc_status: status,
                    last_tc_update: Some(now),
                    ..*old(self)
                }),
                UiMessage::Layers(layers) => *final(self) == (AppState { layers, ..*old(self) }),
                UiMessage::Log(entry) => {
                    &&& final(self).logs@ == logged(old(self).logs@, entry)
                    &&& final(self).tc == old(self).tc
                    &&& final(self).tc_status == old(self).tc_status
                    &&& final(self).layers == old(self).layers
                    &&& final(self).last_tc_update == old(self).last_tc_update
                },
            },
    {
        match msg {
            UiMessage::Timecode { tc, status } => {
                self.tc = tc;
                self.tc_status = status;
                self.last_tc_update = Some(now);
            },
            UiMessage::Layers(layers) => {
                self.layers = layers;
            },
            UiMessage::Log(entry) => {
                self.push_log(entry);
            },
        }
    }
}

/// The log with more entries, each of which comes before those that are there already.
pub open spec fn all_logged(logs: Seq<LogEntry>, entries: Seq<LogEntry>) -> Seq<LogEntry>
    decreases entries.len(),
{
    if entries.len() == 0 {
        logs
    } else {
        logged(all_logged(logs, entries.drop_last()), entries.last())
    }
}

/// The log holds the newest entries, newest first, and never more than [`MAX_LOGS`] of them.
pub proof fn law_log_holds_the_newest_entries(entries: Seq<LogEntry>)
    ensures
        ({
            let logs = all_logged(seq![], entries);
            &&& logs.len() == if entries.len() < MAX_LOGS {
                entries.len()
            } else {
                MAX_LOGS as nat
            }
            &&& forall|i: int|
                0 <= i < logs.len() ==> #[trigger] logs[i] == entries[entries.len() - 1 - i]
        }),
    decreases entries.len(),
{
    if entries.len() > 0 {
        law_log_holds_the_newest_entries(entries.drop_last());
    }
}

} // verus!
