use casparcg_timecode::layer::{sorted_layers, LayerState};
use casparcg_timecode::ltc::{FramesPerSecond, TimecodeFrame};
use casparcg_timecode::timecode_parser::{TimecodeEvent, TimecodePosition};
use casparcg_timecode::tui::log_message::MessageVisitor;
use casparcg_timecode::tui::state::{
    layer_displays, timecode_message, AppState, LayerDisplay, LogEntry, LogLevel, TcStatus,
    UiMessage, MAX_LOGS,
};
use casparcg_timecode::tui::ui::{
    is_quit_key, layer_panel_height, show_layers, show_logs, timecode_line, timecode_title,
    StyledText, Tint,
};
use std::collections::HashMap;

fn styled(text: &str, tint: Tint, bold: bool) -> StyledText {
    StyledText {
        text: text.into(),
        tint,
        bold,
    }
}

fn entry(level: LogLevel, message: &str) -> LogEntry {
    LogEntry {
        time: "12:00:00".into(),
        level,
        message: message.into(),
    }
}

fn playing(filename: &str) -> LayerState {
    LayerState::Playing {
        filename: filename.into(),
    }
}

#[test]
fn layers_are_sorted_by_number() {
    let mut states = HashMap::new();
    states.insert(300, playing("C"));
    states.insert(10, LayerState::Stopped);
    states.insert(
        20,
        LayerState::Paused {
            filename: "B".into(),
        },
    );
    assert_eq!(sorted_layers(&states), [10, 20, 300]);
    let displays = layer_displays(&states);
    let ids: Vec<u16> = displays.iter().map(|d| d.id).collect();
    assert_eq!(ids, [10, 20, 300]);
    for display in displays {
        assert_eq!(display.state, states[&display.id]);
    }
    assert!(layer_displays(&HashMap::new()).is_empty());
}

#[test]
fn new_state_waits_for_timecode() {
    let state = AppState::new();
    assert_eq!(state.tc, "--:--:--:--");
    assert_eq!(state.tc_status, TcStatus::Paused);
    assert!(state.layers.is_empty());
    assert!(state.logs.is_empty());
    assert_eq!(state.last_tc_update, None);
}

#[test]
fn messages_change_what_they_speak_of() {
    let mut state = AppState::new();
    state.apply(
        UiMessage::Timecode {
            tc: "01:02:34:15".into(),
            status: TcStatus::Playing,
        },
        77,
    );
    assert_eq!(state.tc, "01:02:34:15");
    assert_eq!(state.tc_status, TcStatus::Playing);
    assert_eq!(state.last_tc_update, Some(77));
    state.apply(
        UiMessage::Layers(vec![LayerDisplay {
            id: 10,
            state: playing("A"),
        }]),
        88,
    );
    assert_eq!(state.layers.len(), 1);
    assert_eq!(state.last_tc_update, Some(77));
    state.apply(UiMessage::Log(entry(LogLevel::Info, "hello")), 99);
    assert_eq!(state.logs[0].message, "hello");
    assert_eq!(state.tc, "01:02:34:15");
}

#[test]
fn log_holds_the_newest_entries() {
    let mut state = AppState::new();
    for n in 0..MAX_LOGS + 50 {
        state.push_log(entry(LogLevel::Info, &n.to_string()));
    }
    assert_eq!(state.logs.len(), MAX_LOGS);
    assert_eq!(state.logs[0].message, (MAX_LOGS + 49).to_string());
    assert_eq!(state.logs[MAX_LOGS - 1].message, "50");
}

#[test]
fn event_becomes_a_message() {
    let frame = TimecodeFrame {
        hours: 1,
        minutes: 2,
        seconds: 3,
        frames: 4,
        frames_per_second: FramesPerSecond::TwentyFive,
    };
    let position = TimecodePosition::new(frame, 25);
    match timecode_message(&TimecodeEvent::Playing(position)) {
        UiMessage::Timecode { tc, status } => {
            assert_eq!((tc.as_str(), status), ("01:02:03:04", TcStatus::Playing));
        }
        other => panic!("{other:?}"),
    }
    match timecode_message(&TimecodeEvent::Paused(position)) {
        UiMessage::Timecode { status, .. } => assert_eq!(status, TcStatus::Paused),
        other => panic!("{other:?}"),
    }
}

#[test]
fn log_message_joins_its_fields() {
    let mut visitor = MessageVisitor::new();
    assert_eq!(visitor.formatted(), "");
    visitor.record("message", "seeking layer");
    assert_eq!(visitor.formatted(), "seeking layer");
    visitor.record("layer", "10");
    visitor.record("filename", "A B");
    visitor.record("message", "starting layer");
    assert_eq!(visitor.formatted(), "starting layer  layer=10 filename=A B");
}

#[test]
fn timecode_panel() {
    let mut state = AppState::new();
    assert_eq!(timecode_title(&state), styled(" PAUSED ", Tint::Yellow, true));
    assert_eq!(timecode_line(&state), styled("  --:--:--:--", Tint::White, true));
    state.tc_status = TcStatus::Playing;
    assert_eq!(timecode_title(&state), styled(" PLAYING ", Tint::Green, true));
}

#[test]
fn layer_panel() {
    let mut state = AppState::new();
    assert_eq!(layer_panel_height(0), 3);
    assert_eq!(
        show_layers(&state),
        vec![vec![styled("  No layers configured", Tint::DarkGray, false)]]
    );
    state.layers = vec![
        LayerDisplay {
            id: 10,
            state: playing("FILM"),
        },
        LayerDisplay {
            id: 65535,
            state: LayerState::Paused {
                filename: "A rather long filename with many letters".into(),
            },
        },
        LayerDisplay {
            id: 300,
            state: LayerState::Stopped,
        },
    ];
    assert_eq!(layer_panel_height(3), 5);
    assert_eq!(layer_panel_height(65536), 2);
    let lines = show_layers(&state);
    assert_eq!(
        lines[0],
        vec![
            styled(&format!("  L{:<5}", 10), Tint::Gray, false),
            styled(&format!("{:<30}", "FILM"), Tint::Green, true),
        ]
    );
    assert_eq!(
        lines[1],
        vec![
            styled("  L65535", Tint::Gray, false),
            styled("A rather long filename with many letters", Tint::Yellow, true),
        ]
    );
    assert_eq!(lines[2][1], styled(&format!("{:<30}", "-"), Tint::DarkGray, true));
}

#[test]
fn log_panel_shows_what_fits() {
    let mut state = AppState::new();
    let levels = [
        (LogLevel::Error, "ERROR  ", Tint::Red),
        (LogLevel::Warn, "WARN   ", Tint::Yellow),
        (LogLevel::Info, "INFO   ", Tint::Green),
        (LogLevel::Debug, "DEBUG  ", Tint::Blue),
        (LogLevel::Trace, "TRACE  ", Tint::Magenta),
    ];
    for (level, _, _) in levels.iter().rev() {
        state.push_log(entry(*level, "what happened"));
    }
    let lines = show_logs(&state, 40);
    assert_eq!(lines.len(), 5);
    for (line, (_, label, tint)) in lines.iter().zip(levels) {
        assert_eq!(
            *line,
            vec![
                styled("12:00:00  ", Tint::DarkGray, false),
                styled(label, tint, false),
                styled("what happened", Tint::White, false),
            ]
        );
    }
    assert_eq!(show_logs(&state, 5).len(), 3);
    assert_eq!(show_logs(&state, 2).len(), 0);
    assert_eq!(show_logs(&state, 0).len(), 0);
}

#[test]
fn control_c_quits() {
    assert!(is_quit_key(Some('c'), true));
    assert!(!is_quit_key(Some('c'), false));
    assert!(!is_quit_key(Some('C'), true));
    assert!(!is_quit_key(None, true));
}
