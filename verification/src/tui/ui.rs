//! The contents of the panels of the TUI.

use crate::decimal::{decimal, decimal_text};
use crate::layer::{LayerModel, LayerState};
use crate::text::{chars_of, string_of};
use crate::tui::state::{AppState, LayerDisplay, LogEntry, LogLevel, TcStatus};
use vstd::prelude::*;
use vstd::string::StringExecFns;

verus! {

/// Colour of a text.
#[derive(Debug, Clone, Copy, PartialEq, Eq, Structural)]
pub enum Tint {
    White,
    Gray,
    DarkGray,
    Red,
    Green,
    Yellow,
    Blue,
    Magenta,
}

/// A text in a colour.
#[derive(Debug, Clone, PartialEq)]
pub struct StyledText {
    pub text: String,
    pub tint: Tint,
    pub bold: bool,
}

/// A text in a colour, in a specification.
pub struct StyledModel {
    pub text: Seq<char>,
    pub tint: Tint,
    pub bold: bool,
}

impl View for StyledText {
    type V = StyledModel;

    open spec fn view(&self) -> StyledModel {
        StyledModel { text: self.text@, tint: self.tint, bold: self.bold }
    }
}

/// A line of texts.
pub open spec fn line_model(line: Seq<StyledText>) -> Seq<StyledModel> {
    line.map_values(|text: StyledText| text@)
}

/// A panel of lines.
pub open spec fn panel_model(lines: Seq<Vec<StyledText>>) -> Seq<Seq<StyledModel>> {
    lines.map_values(|line: Vec<StyledText>| line_model(line@))
}

/// A text with spaces after it, so that it fills a width.
pub open spec fn padded(s: Seq<char>, width: nat) -> Seq<char>
    decreases width - s.len(),
{
    if s.len() >= width {
        s
    } else {
        padded(s.push(' '), width)
    }
}

fn pad(text: &str, width: usize) -> (result: String)
    ensures
        result@ == padded(text@, width as nat),
{
    let mut chars = chars_of(text);
    while chars.len() < width
        invariant
            padded(chars@, width as nat) == padded(text@, width as nat),
        decreases width - chars@.len(),
    {
        chars.push(' ');
    }
    string_of(&chars)
}

/// The height of the layer panel: a line for each layer, and one where there is none, between two
/// lines of border. The number of layers is cut down to 16 bits.
pub open spec fn layer_lines(layers: nat) -> nat {
    if layers == 0 {
        1
    } else {
        layers % 0x1_0000
    }
}

/// The height of the layer panel, with its border.
pub fn layer_panel_height(layers: usize) -> (height: u16)
    requires
        layer_lines(layers as nat) + 2 <= u16::MAX,
    ensures
        height == layer_lines(layers as nat) + 2,
{
    let lines: usize = if layers == 0 {
        1
    } else {
        layers % 0x1_0000
    };
    lines as u16 + 2
}

/// The words for a status, with their colour.
pub open spec fn status_label(status: TcStatus) -> (Seq<char>, Tint) {
    match status {
        TcStatus::Playing => ("PLAYING"@, Tint::Green),
        TcStatus::Paused => ("PAUSED"@, Tint::Yellow),
    }
}

/// The title of the timecode panel.
pub fn timecode_title(state: &AppState) -> (title: StyledText)
    ensures
        title@ == (StyledModel {
            text: " "@ + status_label(state.tc_status).0 + " "@,
            tint: status_label(state.tc_status).1,
            bold: true,
        }),
{
    let (label, tint) = match state.tc_status {
        TcStatus::Playing => ("PLAYING", Tint::Green),
        TcStatus::Paused => ("PAUSED", Tint::Yellow),
    };
    StyledText { text: String::from_str(" ").concat(label).concat(" "), tint, bold: true }
}

/// The line of the timecode panel.
pub fn timecode_line(state: &AppState) -> (line: StyledText)
    ensures
        line@ == (StyledModel { text: "  "@ + state.tc@, tint: Tint::White, bold: true }),
{
    StyledText {
        text: String::from_str("  ").concat(state.tc.as_str()),
        tint: Tint::White,
        bold: true,
    }
}

/// What a layer plays, with its colour.
pub open spec fn layer_label(state: LayerModel) -> (Seq<char>, Tint) {
    match state {
        LayerModel::Playing { filename } => (filename, Tint::Green),
        LayerModel::Paused { filename } => (filename, Tint::Yellow),
        LayerModel::Stopped => ("-"@, Tint::DarkGray),
    }
}

/// The line of a layer.
pub open spec fn layer_line(layer: LayerDisplay) -> Seq<StyledModel> {
    let (filename, tint) = layer_label(layer.state@);
    seq![
        StyledModel {
            text: "  L"@ + padded(decimal(layer.id as nat), 5),
            tint: Tint::Gray,
            bold: false,
        },
        StyledModel { text: padded(filename, 30), tint, bold: true },
    ]
}

/// The lines of the layer panel.
pub open spec fn layer_panel(layers: Seq<LayerDisplay>) -> Seq<Seq<StyledModel>> {
    if layers.len() == 0 {
        seq![
            seq![
                StyledModel {
                    text: "  No layers configured"@,
                    tint: Tint::DarkGray,
                    bold: false,
                },
            ],
        ]
    } else {
        layers.map_values(|layer: LayerDisplay| layer_line(layer))
    }
}

fn show_layer(layer: &LayerDisplay) -> (line: Vec<StyledText>)
    ensures
        line_model(line@) == layer_line(*layer),
{
    let (filename, tint) = match &layer.state {
        LayerState::Playing { filename } => (filename.as_str(), Tint::Green),
        LayerState::Paused { filename } => (filename.as_str(), Tint::Yellow),
        LayerState::Stopped => ("-", Tint::DarkGray),
    };
    let id = pad(decimal_text(layer.id as u64).as_str(), 5);
    let mut line: Vec<StyledText> = Vec::new();
    line.push(
        StyledText {
            text: String::from_str("  L").concat(id.as_str()),
            tint: Tint::Gray,
            bold: false,
        },
    );
    line.push(StyledText { text: pad(filename, 30), tint, bold: true });
    assert(line_model(line@) =~= layer_line(*layer));
    line
}

/// The lines of the layer panel.
pub fn show_layers(state: &AppState) -> (lines: Vec<Vec<StyledText>>)
    ensures
        panel_model(lines@) == layer_panel(state.layers@),
{
    let mut lines: Vec<Vec<StyledText>> = Vec::new();
    if state.layers.len() == 0 {
        let mut line: Vec<StyledText> = Vec::new();
        line.push(
            StyledText {
                text: String::from_str("  No layers configured"),
                tint: Tint::DarkGray,
                bold: false,
            },
        );
        let ghost shown = line_model(line@);
        lines.push(line);
        proof {
            assert(shown =~= layer_panel(state.layers@)[0]);
            assert(panel_model(lines@) =~= layer_panel(state.layers@));
        }
        return lines;
    }
    let mut i: usize = 0;
    while i < state.layers.len()
        invariant
            i <= state.layers@.len(),
            lines@.len() == i,
            forall|k: int|
                0 <= k < i ==> line_model((#[trigger] lines@[k])@) == layer_line(
                    state.layers@[k],
                ),
        decreases state.layers.len() - i,
    {
        lines.push(show_layer(&state.layers[i]));
        i = i + 1;
    }
    assert(panel_model(lines@) =~= layer_panel(state.layers@));
    lines
}

/// The words for a severity, with their colour.
pub open spec fn level_label(level: LogLevel) -> (Seq<char>, Tint) {
    match level {
        LogLevel::Error => ("ERROR"@, Tint::Red),
        LogLevel::Warn => ("WARN "@, Tint::Yellow),
        LogLevel::Info => ("INFO "@, Tint::Green),
        LogLevel::Debug => ("DEBUG"@, Tint::Blue),
        LogLevel::Trace => ("TRACE"@, Tint::Magenta),
    }
}

/// The line of a log entry.
pub open spec fn log_line(entry: LogEntry) -> Seq<StyledModel> {
    let (level, tint) = level_label(entry.level);
    seq![
        StyledModel { text: entry.time@ + "  "@, tint: Tint::DarkGray, bold: false },
        StyledModel { text: level + "  "@, tint, bold: false },
        StyledModel { text: entry.message@, tint: Tint::White, bold: false },
    ]
}

/// The lines of a log panel of a height, whose border takes up two lines.
pub open spec fn log_panel(logs: Seq<LogEntry>, height: u16) -> Seq<Seq<StyledModel>> {
    let room = if height < 2 {
        0
    } else {
        height - 2
    };
    let shown = if logs.len() < room {
        logs.len() as int
    } else {
        room
    };
    logs.take(shown).map_values(|entry: LogEntry| log_line(entry))
}

fn show_entry(entry: &LogEntry) -> (line: Vec<StyledText>)
    ensures
        line_model(line@) == log_line(*entry),
{
    let (level, tint) = match entry.level {
        LogLevel::Error => ("ERROR", Tint::Red),
        LogLevel::Warn => ("WARN ", Tint::Yellow),
        LogLevel::Info => ("INFO ", Tint::Green),
        LogLevel::Debug => ("DEBUG", Tint::Blue),
        LogLevel::Trace => ("TRACE", Tint::Magenta),
    };
    let mut line: Vec<StyledText> = Vec::new();
    line.push(
        StyledText {
            text: entry.time.clone().concat("  "),
            tint: Tint::DarkGray,
            bold: false,
        },
    );
    line.push(StyledText { text: String::from_str(level).concat("  "), tint, bold: false });
    line.push(StyledText { text: entry.message.clone(), tint: Tint::White, bold: false });
    assert(line_model(line@) =~= log_line(*entry));
    line
}

/// The lines of the log panel, as many as fit.
pub fn show_logs(state: &AppState, height: u16) -> (lines: Vec<Vec<StyledText>>)
    ensures
        panel_model(lines@) == log_panel(state.logs@, height),
{
    let room: usize = height.saturating_sub(2) as usize;
    let mut lines: Vec<Vec<StyledText>> = Vec::new();
    let mut i: usize = 0;
    while i < state.logs.len() && i < room
        invariant
            i <= state.logs@.len(),
            i <= room,
            lines@.len() == i,
            forall|k: int|
                0 <= k < i ==> line_model((#[trigger] lines@[k])@) == log_line(state.logs@[k]),
        decreases room - i,
    {
        lines.push(show_entry(&state.logs[i]));
        i = i + 1;
    }
    assert(panel_model(lines@) =~= log_panel(state.logs@, height));
    lines
}

/// Whether a key ends the program: `c` together with the control key.
pub fn is_quit_key(key: Option<char>, control: bool) -> (quits: bool)
    ensures
        quits == (key == Some('c') && control),
{
    match key {
        Some(c) => c == 'c' && control,
        None => false,
    }
}

/// A padded text is the text itself with spaces after it, as many as it lacks to fill the width. A
/// text that is too long is left as it is.
pub proof fn law_padding_fills_the_width(s: Seq<char>, width: nat)
    ensures
        padded(s, width).len() == if s.len() < width {
            width
        } else {
            s.len()
        },
        padded(s, width).take(s.len() as int) == s,
        forall|i: int|
            s.len() <= i < padded(s, width).len() ==> #[trigger] padded(s, width)[i] == ' ',
    decreases width - s.len(),
{
    if s.len() < width {
        let t = s.push(' ');
        law_padding_fills_the_width(t, width);
        let all = padded(s, width);
        let n = s.len() as int;
        assert(all.take(n + 1)[n] == t[n]);
        assert(all.take(n) =~= all.take(n + 1).take(n));
        assert(t.take(n) =~= s);
    } else {
        assert(s.take(s.len() as int) =~= s);
    }
}

/// The log panel shows the first entries of the log, each in a line, as many as fit between the two
/// lines of its border.
pub proof fn law_log_panel_shows_what_fits(logs: Seq<LogEntry>, height: u16, i: int)
    ensures
        log_panel(logs, height).len() <= logs.len(),
        height >= 2 ==> log_panel(logs, height).len() + 2 <= height,
        height < 2 ==> log_panel(logs, height).len() == 0,
        height >= 2 && log_panel(logs, height).len() < logs.len() ==> log_panel(logs, height).len()
            + 2 == height,
        0 <= i < log_panel(logs, height).len() ==> log_panel(logs, height)[i] == log_line(logs[i]),
{
}

/// The line of a log entry shows its time, its severity and its message.
pub proof fn law_log_line_shows_its_entry(entry: LogEntry)
    ensures
        log_line(entry).len() == 3,
        log_line(entry)[0].text == entry.time@ + "  "@,
        log_line(entry)[1].text == level_label(entry.level).0 + "  "@,
        log_line(entry)[1].tint == level_label(entry.level).1,
        log_line(entry)[2].text == entry.message@,
{
}

/// The layer panel has a line for each layer, with its number and what is on it, and is as high as
/// it has lines.
pub proof fn law_layer_panel_shows_every_layer(layers: Seq<LayerDisplay>, i: int)
    ensures
        layers.len() < 0x1_0000 ==> layer_lines(layers.len()) == layer_panel(layers).len(),
        layers.len() > 0 ==> layer_panel(layers).len() == layers.len(),
        0 <= i < layers.len() ==> {
            let line = layer_panel(layers)[i];
            &&& line.len() == 2
            &&& line[0].text == "  L"@ + padded(decimal(layers[i].id as nat), 5)
            &&& line[1].text == padded(
                match layers[i].state@ {
                    LayerModel::Playing { filename } => filename,
                    LayerModel::Paused { filename } => filename,
                    LayerModel::Stopped => "-"@,
                },
                30,
            )
        },
{
}

/// What plays, what is paused and what is stopped have different colours, of layers and of
/// timecode alike.
pub proof fn law_states_have_their_colours(a: Seq<char>, b: Seq<char>)
    ensures
        layer_label(LayerModel::Playing { filename: a }).1 == status_label(TcStatus::Playing).1,
        layer_label(LayerModel::Paused { filename: b }).1 == status_label(TcStatus::Paused).1,
        status_label(TcStatus::Playing).1 != status_label(TcStatus::Paused).1,
        layer_label(LayerModel::Stopped).1 != layer_label(LayerModel::Playing { filename: a }).1,
        layer_label(LayerModel::Stopped).1 != layer_label(LayerModel::Paused { filename: b }).1,
{
}

} // verus!
