use casparcg_timecode::amcp::{AmcpAction, AmcpClient, AmcpError, MediaInfo, MediaType};
use casparcg_timecode::config::{Config, LayerId, MediaLayer, Timecode, Track};
use casparcg_timecode::cue::SetupError;
use casparcg_timecode::float::Float32;
use casparcg_timecode::layer::LayerState;
use casparcg_timecode::ltc::{FramesPerSecond, TimecodeFrame};
use casparcg_timecode::media_controller::{LayerCommand, MediaController};
use casparcg_timecode::media_item::MediaItem;
use casparcg_timecode::media_loader::MediaLoader;
use casparcg_timecode::timecode_parser::{TimecodeEvent, TimecodePosition};

fn single(x: f32) -> Float32 {
    Float32 { bits: x.to_bits() }
}

fn media(
    layer: u16,
    file: &str,
    tc_start: [u8; 4],
    duration_frames: u32,
    fps: f32,
) -> MediaItem {
    MediaItem {
        layer: LayerId::new(layer),
        filename: file.into(),
        start_tc: Timecode {
            hours: tc_start[0],
            minutes: tc_start[1],
            seconds: tc_start[2],
            frames: tc_start[3],
        },
        duration_frames,
        fps: single(fps),
        output_delay_frames: 0,
    }
}

fn at(total_frames: u32, fps: u8) -> TimecodePosition {
    TimecodePosition {
        frame: TimecodeFrame {
            hours: 0,
            minutes: 0,
            seconds: 0,
            frames: 0,
            frames_per_second: FramesPerSecond::Unknown,
        },
        fps,
        total_frames,
    }
}

#[test]
fn check_layer_conflicts_accepts_non_overlapping() {
    let items = vec![
        media(10, "a.mp4", [1, 0, 0, 0], 50, 25.0),
        media(10, "b.mp4", [1, 0, 5, 0], 50, 25.0),
    ];
    MediaController::check_layer_conflicts(&items)
        .expect("sequential items on the same layer should not conflict");
}

#[test]
fn check_layer_conflicts_accepts_different_layers() {
    let items = vec![
        media(10, "a.mp4", [1, 0, 0, 0], 50, 25.0),
        media(20, "b.mp4", [1, 0, 0, 0], 50, 25.0),
    ];
    MediaController::check_layer_conflicts(&items)
        .expect("overlapping items on different layers should not conflict");
}

#[test]
fn check_layer_conflicts_rejects_overlapping() {
    let items = vec![
        media(10, "a.mp4", [1, 0, 0, 0], 100, 25.0),
        media(10, "b.mp4", [1, 0, 3, 0], 100, 25.0),
    ];
    let err = MediaController::check_layer_conflicts(&items)
        .expect_err("overlapping items on the same layer should conflict")
        .message();
    assert!(
        err.contains("scheduling conflict"),
        "unexpected error: {err}"
    );
    assert_eq!(
        err,
        "layer 10 has a scheduling conflict: 'a.mp4' (active 3600.0s\u{2013}3604.0s) overlaps \
         with 'b.mp4' (active 3603.0s\u{2013}3607.0s)"
    );
}

#[test]
fn check_layer_conflicts_rejects_identical_timing() {
    let items = vec![
        media(10, "a.mp4", [1, 0, 0, 0], 50, 25.0),
        media(10, "b.mp4", [1, 0, 0, 0], 50, 25.0),
    ];
    let err = MediaController::check_layer_conflicts(&items)
        .expect_err("identical timing on the same layer should conflict")
        .message();
    assert!(
        err.contains("scheduling conflict"),
        "unexpected error: {err}"
    );
}

#[test]
fn output_delay_activates_media_earlier() {
    let mut item = media(10, "a.mp4", [1, 0, 0, 0], 250, 25.0);
    item.output_delay_frames = 8;

    // At 25fps, tc_start "01:00:00:00" = 90000 frames.
    // With 8-frame delay, activation starts at 89992.
    let pos_before = at(89991, 25);
    let pos_at_delay = at(89992, 25);
    let pos_at_original = at(90000, 25);

    assert!(!item.is_active_at(&pos_before));
    assert!(item.is_active_at(&pos_at_delay));
    assert!(item.is_active_at(&pos_at_original));
}

#[test]
fn output_delay_seek_offset_is_zero_at_adjusted_start() {
    let mut item = media(10, "a.mp4", [1, 0, 0, 0], 250, 25.0);
    item.output_delay_frames = 8;

    let pos = at(89992, 25);

    // At the adjusted start, seek offset should be 0
    assert_eq!(item.media_offset(&pos, &single(25.0)), 0);
}

#[test]
fn conflict_counts_a_start_within_a_second_as_the_next_one() {
    // Ends at 3600 + 1 + 2 seconds.
    let items = |start: u8| {
        vec![
            media(10, "a.mp4", [1, 0, 0, 1], 50, 25.0),
            media(10, "b.mp4", [1, 0, start, 0], 50, 25.0),
        ]
    };
    assert!(MediaController::check_layer_conflicts(&items(3)).is_ok());
    assert!(MediaController::check_layer_conflicts(&items(2)).is_err());
}

#[test]
fn first_conflict_is_reported() {
    let items = vec![
        media(20, "x", [0, 0, 0, 0], 250, 25.0),
        media(10, "a", [1, 0, 0, 0], 250, 25.0),
        media(10, "b", [1, 0, 1, 0], 250, 25.0),
        media(20, "y", [0, 0, 2, 0], 250, 25.0),
    ];
    let conflict = MediaController::check_layer_conflicts(&items).unwrap_err();
    assert_eq!((conflict.first.as_str(), conflict.second.as_str()), ("x", "y"));
}

#[test]
fn frames_and_seconds_of_an_item() {
    let item = media(10, "a", [1, 2, 3, 4], 100, 29.97);
    let fps: f32 = 25.0;
    let start = ((3600 + 123) as f32 * fps) as u32 + 4;
    assert_eq!(item.start_frame(&single(fps)), start);
    let lasts = (100.0f32 / 29.97 * fps).round() as u32;
    assert_eq!(item.end_frame(&single(fps)), start + lasts);
    assert_eq!(f64::from_bits(item.start_secs().bits), 3723.0);
    assert_eq!(
        f64::from_bits(item.end_secs().bits),
        (3724.0 + 100.0 / 29.97f32 as f64).ceil()
    );
    let pos = at(start + 40, 25);
    assert_eq!(
        item.media_offset(&pos, &single(29.97)),
        (40.0f32 * 29.97 / 25.0).round() as u32
    );
}

#[test]
fn media_ends_at_a_whole_second() {
    let end = |item: MediaItem| f64::from_bits(item.end_secs().bits);
    assert_eq!(end(media(10, "a", [1, 0, 0, 0], 60, 25.0)), 3603.0);
    assert_eq!(end(media(10, "a", [1, 0, 0, 0], 75, 25.0)), 3603.0);
    assert_eq!(end(media(10, "a", [1, 0, 0, 0], 76, 25.0)), 3604.0);
    assert_eq!(end(media(10, "a", [1, 0, 0, 1], 75, 25.0)), 3604.0);
    assert_eq!(end(media(10, "a", [1, 0, 0, 1], 60, 25.0)), 3604.0);
    assert_eq!(end(media(10, "a", [0, 0, 0, 0], 0, 25.0)), 0.0);
    assert!(end(media(10, "a", [0, 0, 0, 0], 0, 0.0)).is_nan());
    assert_eq!(end(media(10, "a", [0, 0, 0, 0], 1, 0.0)), f64::INFINITY);

    let items = [
        media(10, "a", [1, 0, 0, 0], 60, 25.0),
        media(10, "b", [1, 0, 2, 0], 60, 25.0),
    ];
    let conflict = MediaController::check_layer_conflicts(&items).unwrap_err();
    assert!(conflict.message().contains("3603.0"), "{}", conflict.message());
    let items = [
        media(10, "a", [1, 0, 0, 0], 60, 25.0),
        media(10, "b", [1, 0, 3, 0], 60, 25.0),
    ];
    assert!(MediaController::check_layer_conflicts(&items).is_ok());
}

#[test]
fn frames_that_cannot_be_counted() {
    let item = media(10, "a", [1, 0, 0, 0], u32::MAX, 1.0);
    assert!(!item.is_countable_at(&at(90000, 25)));
    assert!(item.is_countable_at(&at(89999, 25)));
    assert!(media(10, "a", [1, 0, 0, 0], 250, 25.0).is_countable_at(&at(90000, 25)));
}

#[test]
fn media_without_conflict_never_plays_together() {
    // One ends in the second in which the other one starts.
    let a = media(10, "a", [23, 59, 50, 0], 269, 29.97);
    let b = media(10, "b", [23, 59, 59, 3], 50, 25.0);
    assert!(MediaController::check_layer_conflicts(&[a.clone(), b.clone()]).is_ok());
    for fps in [24u8, 25, 30] {
        let first = 86_390 * fps as u32;
        for frame in first - 5..first + 15 * fps as u32 {
            let pos = at(frame, fps);
            assert!(!(a.is_active_at(&pos) && b.is_active_at(&pos)), "{frame}");
        }
    }
}

fn config(tracks: Vec<([u8; 4], Vec<(u16, &str)>)>) -> Config {
    Config {
        caspar_host: "localhost".into(),
        caspar_port: 5250,
        caspar_channel: 1,
        audio_device: None,
        pause_detection_threshold_ms: 500,
        resync_threshold_frames: 10,
        tc_fallback_fps: 25,
        tcp_timeout_secs: 5,
        tracks: tracks
            .into_iter()
            .map(|(start, media)| Track {
                name: "track".into(),
                tc_start: Timecode {
                    hours: start[0],
                    minutes: start[1],
                    seconds: start[2],
                    frames: start[3],
                },
                media: media
                    .into_iter()
                    .map(|(layer, file)| MediaLayer {
                        layer: LayerId::new(layer),
                        file: file.into(),
                    })
                    .collect(),
            })
            .collect(),
    }
}

fn info(filename: &str, frame_count: u32, frame_rate: f32) -> MediaInfo {
    MediaInfo {
        filename: filename.into(),
        media_type: MediaType::Movie,
        frame_count,
        frame_rate: single(frame_rate),
    }
}

/// BG plays on layer 10 from second 0 to second 10, FILM on layer 20 from second 4 to second 8.
fn controller() -> MediaController {
    let config = config(vec![
        ([0, 0, 0, 0], vec![(10, "BG")]),
        ([0, 0, 4, 0], vec![(20, "FILM")]),
    ]);
    let infos = vec![info("FILM", 100, 25.0), info("BG", 250, 25.0)];
    MediaController::new(&config, 0, single(50.0), &infos).unwrap()
}

fn play(layer: u16, file: &str, seek_frame: u32) -> LayerCommand {
    LayerCommand::Play {
        channel: 1,
        layer,
        file: file.into(),
        seek_frame,
    }
}

fn run(controller: &mut MediaController, event: TimecodeEvent) -> Vec<LayerCommand> {
    let commands = controller.handle_event(&event);
    for command in &commands {
        controller.acknowledge(command);
    }
    commands
}

fn playing(frame: u32) -> TimecodeEvent {
    TimecodeEvent::Playing(at(frame, 25))
}

fn paused(frame: u32) -> TimecodeEvent {
    TimecodeEvent::Paused(at(frame, 25))
}

fn state(controller: &MediaController, layer: u16) -> LayerState {
    controller.layer_states()[&layer].clone()
}

#[test]
fn new_controller_has_stopped_layers() {
    let controller = controller();
    assert_eq!(controller.layer_states().len(), 2);
    assert_eq!(state(&controller, 10), LayerState::Stopped);
    assert_eq!(state(&controller, 20), LayerState::Stopped);
    assert!(controller.is_countable_at(&at(0, 25)));
}

#[test]
fn first_frame_starts_media() {
    let mut controller = controller();
    assert_eq!(run(&mut controller, playing(0)), vec![play(10, "BG", 0)]);
    assert_eq!(
        state(&controller, 10),
        LayerState::Playing {
            filename: "BG".into()
        }
    );
}

#[test]
fn steady_playback_needs_no_command() {
    let mut controller = controller();
    run(&mut controller, playing(0));
    for frame in 1..100 {
        assert_eq!(run(&mut controller, playing(frame)), vec![]);
    }
    // FILM starts, and the server shows two frames for each of timecode.
    assert_eq!(run(&mut controller, playing(100)), vec![play(20, "FILM", 0)]);
    for frame in 101..200 {
        assert_eq!(run(&mut controller, playing(frame)), vec![]);
    }
    // What has ended is left alone until the layers are synchronised.
    assert_eq!(run(&mut controller, playing(200)), vec![]);
    assert_eq!(
        state(&controller, 20),
        LayerState::Playing {
            filename: "FILM".into()
        }
    );
    assert!(!controller.resyncs_at(&at(210, 25)));
    assert!(controller.resyncs_at(&at(211, 25)));
    let commands = run(&mut controller, playing(300));
    assert!(commands.contains(&LayerCommand::Stop {
        channel: 1,
        layer: 20
    }));
    assert_eq!(state(&controller, 20), LayerState::Stopped);
}

#[test]
fn jump_beyond_the_threshold_resyncs() {
    let mut controller = controller();
    run(&mut controller, playing(20));
    assert_eq!(run(&mut controller, playing(30)), vec![]);
    assert_eq!(run(&mut controller, playing(41)), vec![play(10, "BG", 82)]);
    assert_eq!(run(&mut controller, playing(30)), vec![play(10, "BG", 60)]);
    assert_eq!(
        run(&mut controller, playing(120)),
        vec![play(10, "BG", 240), play(20, "FILM", 40)]
    );
}

#[test]
fn pause_pauses_and_resume_resyncs() {
    let mut controller = controller();
    run(&mut controller, playing(0));
    let pause = LayerCommand::Pause {
        channel: 1,
        layer: 10,
    };
    assert_eq!(run(&mut controller, paused(0)), vec![pause]);
    assert_eq!(
        state(&controller, 10),
        LayerState::Paused {
            filename: "BG".into()
        }
    );
    assert_eq!(state(&controller, 20), LayerState::Stopped);
    assert_eq!(run(&mut controller, paused(0)), vec![]);
    assert_eq!(run(&mut controller, playing(1)), vec![play(10, "BG", 2)]);
}

#[test]
fn failed_command_leaves_its_layer() {
    let mut controller = controller();
    assert_eq!(controller.handle_event(&playing(0)), vec![play(10, "BG", 0)]);
    assert_eq!(state(&controller, 10), LayerState::Stopped);
    // The next frame tries again, as the layer is still stopped.
    assert_eq!(controller.handle_event(&playing(1)), vec![play(10, "BG", 2)]);
    controller.acknowledge(&play(99, "OTHER", 0));
    assert_eq!(controller.layer_states().len(), 2);
}

#[test]
fn setup_needs_info_with_a_valid_rate() {
    let config = config(vec![([0, 0, 0, 0], vec![(10, "BG"), (20, "FILM")])]);
    let new = |infos: Vec<MediaInfo>| MediaController::new(&config, 0, single(25.0), &infos).err();
    let error = new(vec![info("BG", 250, 25.0)]).unwrap();
    assert!(matches!(error, SetupError::MissingInfo { .. }));
    assert_eq!(error.message(""), "media info not found for: FILM");
    for rate in [0.0, -0.0, -25.0, f32::NEG_INFINITY] {
        let error = new(vec![info("FILM", 1, 25.0), info("BG", 250, rate)]).unwrap();
        assert!(matches!(error, SetupError::InvalidRate { .. }));
        assert_eq!(
            error.message(&rate.to_string()),
            format!("media 'BG' has invalid frame rate: {rate}")
        );
    }
    for rate in [f32::NAN, f32::INFINITY, 1e-40] {
        assert!(new(vec![info("FILM", 1, 25.0), info("BG", 250, rate)]).is_none());
    }
}

#[test]
fn setup_rejects_conflicts() {
    let config = config(vec![
        ([0, 0, 0, 0], vec![(10, "BG")]),
        ([0, 0, 9, 0], vec![(10, "FILM")]),
    ]);
    let infos = vec![info("BG", 250, 25.0), info("FILM", 100, 25.0)];
    let error = MediaController::new(&config, 0, single(25.0), &infos)
        .err()
        .unwrap();
    assert!(matches!(error, SetupError::Conflict(_)));
    assert_eq!(
        error.message(""),
        "layer 10 has a scheduling conflict: 'BG' (active 0.0s\u{2013}10.0s) overlaps with \
         'FILM' (active 9.0s\u{2013}13.0s)"
    );
}

#[test]
fn every_file_is_looked_up_once() {
    let config = config(vec![
        ([0, 0, 0, 0], vec![(10, "BG"), (20, "FILM")]),
        ([0, 1, 0, 0], vec![(10, "BG"), (30, "LOGO")]),
    ]);
    let mut loader = MediaLoader::new(&config);
    let mut asked = Vec::new();
    while let Some(file) = loader.next_file().cloned() {
        loader.accept(Ok(info("whatever", 25, 25.0))).unwrap();
        asked.push(file);
    }
    assert_eq!(asked, ["BG", "FILM", "LOGO"]);
    assert!(loader.accept(Ok(info("more", 25, 25.0))).is_ok());
    let names: Vec<&str> = loader.media_info().iter().map(|i| i.filename.as_str()).collect();
    assert_eq!(names, ["BG", "FILM", "LOGO"]);
    assert!(MediaController::new(&config, 0, single(25.0), loader.media_info()).is_ok());
}

#[test]
fn file_that_is_not_found_ends_the_lookup() {
    let config = config(vec![([0, 0, 0, 0], vec![(10, "BG")])]);
    let mut loader = MediaLoader::new(&config);
    let error = loader
        .accept(Err(AmcpError::Refused {
            response: "404 CINF ERROR".into(),
        }))
        .unwrap_err();
    assert_eq!(
        error.message(),
        "media file 'BG' not found in CasparCG: AMCP error: 404 CINF ERROR"
    );
    assert_eq!(loader.next_file().unwrap(), "BG");
}

#[test]
fn output_delay_is_taken_from_setup() {
    let config = config(vec![([0, 0, 4, 0], vec![(10, "BG")])]);
    let infos = vec![info("BG", 250, 25.0)];
    let mut controller = MediaController::new(&config, 8, single(25.0), &infos).unwrap();
    assert_eq!(controller.handle_event(&playing(91)), vec![]);
    assert_eq!(controller.handle_event(&playing(92)), vec![play(10, "BG", 0)]);
}

#[test]
fn start_timecode_starts_media_at_frame_zero() {
    let config = config(vec![([10, 20, 30, 5], vec![(10, "BG")])]);
    let infos = vec![info("BG", 250, 25.0)];
    for (reported, fps) in [
        (FramesPerSecond::TwentyFour, 24),
        (FramesPerSecond::TwentyFive, 25),
        (FramesPerSecond::Thirty, 30),
        (FramesPerSecond::Unknown, 48),
    ] {
        let mut controller = MediaController::new(&config, 0, single(59.94), &infos).unwrap();
        let frame = TimecodeFrame {
            hours: 10,
            minutes: 20,
            seconds: 30,
            frames: 5,
            frames_per_second: reported,
        };
        let event = TimecodeEvent::Playing(TimecodePosition::new(frame, fps));
        assert_eq!(controller.handle_event(&event), vec![play(10, "BG", 0)]);
    }
}

#[test]
fn last_active_item_of_a_layer_plays() {
    // At 25 frames per second, frame 99 of a second lies in a later one.
    let config = config(vec![
        ([0, 0, 0, 99], vec![(10, "LATE")]),
        ([0, 0, 2, 0], vec![(10, "NEXT")]),
    ]);
    let infos = vec![info("LATE", 25, 25.0), info("NEXT", 100, 25.0)];
    let mut controller = MediaController::new(&config, 0, single(25.0), &infos).unwrap();
    assert_eq!(run(&mut controller, playing(100)), vec![play(10, "NEXT", 50)]);
}

#[test]
fn equal_rates_seek_frame_by_frame() {
    let item = media(10, "a", [1, 0, 0, 0], 100_000, 25.0);
    for offset in [0, 1, 2, 999, 50_000, 99_999] {
        assert_eq!(item.media_offset(&at(90_000 + offset, 25), &single(25.0)), offset);
    }
    // The product with the rate is rounded here, and the quotient still is the number of frames.
    let item = media(10, "a", [0, 0, 0, 0], 100_000_000, 30.0);
    for frame in [700_001, 1_234_567, 4_194_303] {
        assert_eq!(item.media_offset(&at(frame, 30), &single(30.0)), frame);
    }
}

#[test]
fn commands_are_sent_in_words() {
    let commands = [
        (play(10, "BG", 82), "PLAY 1-10 \"BG\" SEEK 82\r\n"),
        (
            LayerCommand::Pause {
                channel: 2,
                layer: 20,
            },
            "PAUSE 2-20\r\n",
        ),
        (
            LayerCommand::Stop {
                channel: 3,
                layer: 30,
            },
            "STOP 3-30\r\n",
        ),
    ];
    for (command, expected) in commands {
        let mut client = AmcpClient::new();
        command.begin(&mut client);
        match client.action() {
            AmcpAction::Send(text) => assert_eq!(text, expected),
            other => panic!("{other:?}"),
        }
    }
}

#[test]
fn distant_media_never_plays_together() {
    // A long item needs a second after it where its frames are rounded, a short one none.
    let cases = [
        ([0, 0, 0, 0], 250, [23, 0, 0, 0], 60),
        ([0, 0, 0, 0], 23 * 3600 * 25, [23, 0, 1, 0], 60),
        ([200, 0, 0, 29], 250, [200, 0, 13, 0], 24),
        ([99, 0, 0, 0], 250, [255, 0, 0, 0], 255),
    ];
    for (start, duration, next, fps) in cases {
        let items = [
            media(10, "a", start, duration, 25.0),
            media(10, "b", next, 250, 25.0),
        ];
        MediaController::check_layer_conflicts(&items).unwrap();
        let rate = single(fps as f32);
        let (first, second) = (&items[0], &items[1]);
        assert!(first.end_frame(&rate) <= second.start_frame(&rate));
        for frame in [
            first.start_frame(&rate),
            first.end_frame(&rate) - 1,
            first.end_frame(&rate),
            second.start_frame(&rate),
            second.end_frame(&rate) - 1,
        ] {
            let position = at(frame, fps);
            assert!(!(first.is_active_at(&position) && second.is_active_at(&position)));
        }
    }
}

#[test]
fn layers_play_only_their_own_files() {
    // Each command is carried out or not, by the bits of a counter.
    for choices in 0u32..256 {
        let mut controller = controller();
        let mut rest = choices;
        for event in [playing(0), playing(100), paused(101), playing(120), playing(230)] {
            for command in controller.handle_event(&event) {
                if rest & 1 == 1 {
                    controller.acknowledge(&command);
                }
                rest >>= 1;
            }
            for (layer, state) in controller.layer_states() {
                let own = if *layer == 10 { "BG" } else { "FILM" };
                match state {
                    LayerState::Stopped => {}
                    LayerState::Playing { filename } | LayerState::Paused { filename } => {
                        assert_eq!(filename, own);
                    }
                }
            }
        }
    }
}
