use casparcg_timecode::config::{
    default_resync_threshold_frames, default_tc_fallback_fps, default_tcp_timeout_secs, Config,
    LayerId, MediaLayer, Timecode, Track,
};
use casparcg_timecode::float::Float32;

fn make_config(tracks: Vec<Track>) -> Config {
    Config {
        caspar_host: "localhost".into(),
        caspar_port: 5250,
        caspar_channel: 1,
        audio_device: None,
        pause_detection_threshold_ms: 500,
        resync_threshold_frames: 10,
        tc_fallback_fps: 25,
        tcp_timeout_secs: 5,
        tracks,
    }
}

fn make_track(id: u16, media: Vec<(u16, &str)>) -> Track {
    Track {
        name: format!("track_{id}"),
        tc_start: Timecode {
            hours: 1,
            minutes: 0,
            seconds: 0,
            frames: 0,
        },
        media: media
            .into_iter()
            .map(|(layer, file)| MediaLayer {
                layer: LayerId::new(layer),
                file: file.into(),
            })
            .collect(),
    }
}

#[test]
fn validate_accepts_unique_layers() {
    let config = make_config(vec![
        make_track(1, vec![(10, "a.mp4"), (20, "b.mp4")]),
        make_track(2, vec![(10, "c.mp4")]),
    ]);
    config.validate().unwrap();
}

#[test]
fn validate_rejects_duplicate_layer() {
    let config = make_config(vec![
        make_track(1, vec![(10, "a.mp4")]),
        make_track(2, vec![(10, "x.mp4"), (10, "y.mp4")]),
    ]);
    let err = config.validate().unwrap_err().message();
    assert!(
        err.contains("track_2"),
        "error should name the offending track: {err}"
    );
    assert!(
        err.contains("layer 10"),
        "error should name the duplicate layer: {err}"
    );
}

#[test]
fn validate_reports_the_first_violation() {
    let message = |change: fn(&mut Config)| {
        let mut config = make_config(vec![make_track(1, vec![(10, "a"), (10, "b")])]);
        change(&mut config);
        config.validate().unwrap_err().message()
    };
    assert_eq!(
        message(|c| {
            c.tc_fallback_fps = 0;
            c.tcp_timeout_secs = 0;
        }),
        "tc_fallback_fps must be greater than 0"
    );
    assert_eq!(
        message(|c| {
            c.tcp_timeout_secs = 0;
            c.pause_detection_threshold_ms = 9;
        }),
        "tcp_timeout_secs must be greater than 0"
    );
    assert_eq!(
        message(|c| c.pause_detection_threshold_ms = 9),
        "pause_detection_threshold_ms must be at least 10"
    );
    assert_eq!(
        message(|c| c.pause_detection_threshold_ms = 10),
        "track 'track_1' has layer 10 assigned to multiple files; \
         a layer can only appear once per track"
    );
}

#[test]
fn timecodes_are_read() {
    let timecode = Timecode::try_from("01:10:59:255").unwrap();
    let expected = Timecode {
        hours: 1,
        minutes: 10,
        seconds: 59,
        frames: 255,
    };
    assert_eq!(timecode, expected);
    let errors = [
        ("01:10:00", "invalid timecode format: 01:10:00"),
        ("01:10:00:00:00", "invalid timecode format: 01:10:00:00:00"),
        ("01:60:00:00", "invalid minutes in timecode: 01:60:00:00"),
        ("01:00:60:00", "invalid seconds in timecode: 01:00:60:00"),
        ("01:60:60:00", "invalid minutes in timecode: 01:60:60:00"),
        ("256:00:00:00", "number too large to fit in target type"),
        ("::x:", "cannot parse integer from empty string"),
        ("1:x::", "invalid digit found in string"),
    ];
    for (text, message) in errors {
        assert_eq!(Timecode::try_from(text).unwrap_err().message(), message);
    }
}

#[test]
fn timecode_counts_frames() {
    let timecode = Timecode {
        hours: 1,
        minutes: 0,
        seconds: 1,
        frames: 7,
    };
    for fps in [25.0f32, 29.97, 0.5, -1.0, f32::NAN] {
        let bits = fps.to_bits();
        assert_eq!(
            timecode.total_frames(&Float32 { bits }),
            (3601.0f32 * fps) as u32 + 7
        );
    }
}

#[test]
fn defaults() {
    assert_eq!(default_resync_threshold_frames(), 10);
    assert_eq!(default_tc_fallback_fps(), 25);
    assert_eq!(default_tcp_timeout_secs(), 5);
    assert_eq!(LayerId::new(10).to_text(), "10");
    assert_eq!(*LayerId::new(10), 10);
}

#[test]
fn layers_are_told_by_number() {
    assert_eq!(LayerId::new(10), LayerId::new(10));
    assert_ne!(LayerId::new(10), LayerId::new(20));
    assert_eq!(*LayerId::new(65535), 65535);
}
