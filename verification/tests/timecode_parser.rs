use casparcg_timecode::config::Timecode;
use casparcg_timecode::float::Float32;
use casparcg_timecode::ltc::{FramesPerSecond, TimecodeFrame};
use casparcg_timecode::timecode_parser::{TimecodeEvent, TimecodeParser, TimecodePosition};

const MILLISECOND: u128 = 1_000_000;

fn tc(h: u8, m: u8, s: u8, f: u8) -> TimecodeFrame {
    TimecodeFrame {
        hours: h,
        minutes: m,
        seconds: s,
        frames: f,
        frames_per_second: FramesPerSecond::TwentyFive,
    }
}

fn pos(h: u8, m: u8, s: u8, f: u8) -> TimecodePosition {
    TimecodePosition::new(tc(h, m, s, f), 25)
}

fn test_parser() -> TimecodeParser {
    TimecodeParser::new(48000, 200, 25)
}

#[test]
fn timeout_produces_paused_once() {
    let mut parser = test_parser();
    let t0: u128 = 7_000 * MILLISECOND;

    parser.receive(tc(1, 0, 0, 5), t0);
    assert_eq!(parser.next(t0), Some(TimecodeEvent::Playing(pos(1, 0, 0, 5))));

    assert_eq!(parser.next(t0 + 100 * MILLISECOND), None);
    assert_eq!(
        parser.next(t0 + 250 * MILLISECOND),
        Some(TimecodeEvent::Paused(pos(1, 0, 0, 5))),
    );
    assert_eq!(parser.next(t0 + 300 * MILLISECOND), None);
}

#[test]
fn pause_is_due_exactly_at_the_timeout() {
    let mut parser = test_parser();
    parser.receive(tc(1, 0, 0, 5), 0);
    assert!(parser.next(0).is_some());
    assert_eq!(parser.next(200 * MILLISECOND - 1), None);
    assert_eq!(
        parser.next(200 * MILLISECOND),
        Some(TimecodeEvent::Paused(pos(1, 0, 0, 5))),
    );
}

#[test]
fn repeated_frame_is_silent() {
    let mut parser = test_parser();
    parser.receive(tc(1, 0, 0, 5), 0);
    parser.receive(tc(1, 0, 0, 5), 10);
    parser.receive(tc(1, 0, 0, 6), 20);
    assert_eq!(parser.next(20), Some(TimecodeEvent::Playing(pos(1, 0, 0, 5))));
    assert_eq!(parser.next(20), Some(TimecodeEvent::Playing(pos(1, 0, 0, 6))));
    assert_eq!(parser.next(20), None);
}

#[test]
fn position_counts_frames() {
    let position = pos(1, 2, 3, 4);
    assert_eq!(position.fps, 25);
    assert_eq!(position.total_frames, (3600 + 2 * 60 + 3) * 25 + 4);
    assert_eq!(position.to_text(), "01:02:03:04");
    let rates = [
        (FramesPerSecond::TwentyFour, 24),
        (FramesPerSecond::TwentyFive, 25),
        (FramesPerSecond::Thirty, 30),
        (FramesPerSecond::Unknown, 50),
    ];
    for (reported, fps) in rates {
        let frame = TimecodeFrame {
            frames_per_second: reported,
            ..tc(0, 0, 2, 1)
        };
        let position = TimecodePosition::new(frame, 50);
        assert_eq!(position.fps, fps);
        assert_eq!(position.total_frames, 2 * fps as u32 + 1);
    }
}

/// The 80 bits of a frame of linear timecode.
fn ltc_bits(frame: &TimecodeFrame) -> Vec<bool> {
    let mut bits = vec![false; 80];
    let mut put = |at: usize, width: usize, value: u8| {
        for k in 0..width {
            bits[at + k] = value >> k & 1 == 1;
        }
    };
    put(0, 4, frame.frames % 10);
    put(8, 2, frame.frames / 10);
    put(16, 4, frame.seconds % 10);
    put(24, 3, frame.seconds / 10);
    put(32, 4, frame.minutes % 10);
    put(40, 3, frame.minutes / 10);
    put(48, 4, frame.hours % 10);
    put(56, 2, frame.hours / 10);
    let sync = [0, 0, 1, 1, 1, 1, 1, 1, 1, 1, 1, 1, 1, 1, 0, 1];
    for (k, bit) in sync.iter().enumerate() {
        bits[64 + k] = *bit == 1;
    }
    bits
}

/// Linear timecode as samples, for so many samples in half a bit.
fn ltc_signal(count: u8, half_bit: usize) -> Vec<Float32> {
    let mut samples = Vec::new();
    let mut high = false;
    for f in 0..count {
        for bit in ltc_bits(&tc(10, 20, 30, f)) {
            high = !high;
            for half in 0..2 {
                if half == 1 && bit {
                    high = !high;
                }
                for _ in 0..half_bit {
                    let level: f32 = if high { 0.5 } else { -0.5 };
                    samples.push(Float32 {
                        bits: level.to_bits(),
                    });
                }
            }
        }
    }
    samples
}

fn drain(parser: &mut TimecodeParser, now: u128) -> Vec<TimecodeEvent> {
    let mut events = Vec::new();
    while let Some(event) = parser.next(now) {
        events.push(event);
    }
    events
}

#[test]
fn linear_timecode_is_decoded() {
    let mut parser = test_parser();
    let samples = ltc_signal(12, 12);
    parser.push(&samples, 5);
    assert_eq!(parser.samples_fed(), samples.len());
    let events = drain(&mut parser, 5);
    assert!(events.len() >= 6, "{events:?}");
    for pair in events.windows(2) {
        match (&pair[0], &pair[1]) {
            (TimecodeEvent::Playing(a), TimecodeEvent::Playing(b)) => {
                assert_eq!(a.total_frames + 1, b.total_frames);
                assert_eq!((b.frame.hours, b.frame.minutes, b.frame.seconds), (10, 20, 30));
            }
            other => panic!("{other:?}"),
        }
    }
    let last = events.last().unwrap();
    assert_eq!(
        drain(&mut parser, 5 + 200 * MILLISECOND),
        vec![match last {
            TimecodeEvent::Playing(position) => TimecodeEvent::Paused(*position),
            TimecodeEvent::Paused(_) => unreachable!(),
        }]
    );
}

#[test]
fn chunks_of_audio_make_no_difference() {
    let samples = ltc_signal(8, 12);
    let mut whole = test_parser();
    whole.push(&samples, 5);
    let mut pieces = test_parser();
    for chunk in samples.chunks(441) {
        pieces.push(chunk, 5);
    }
    assert_eq!(drain(&mut whole, 5), drain(&mut pieces, 5));
}

#[test]
fn position_text_is_read_back() {
    for (h, m, s, f) in [(0, 0, 0, 0), (1, 2, 3, 4), (23, 59, 59, 29), (255, 59, 0, 255)] {
        let timecode = Timecode::try_from(pos(h, m, s, f).to_text().as_str()).unwrap();
        let expected = Timecode {
            hours: h,
            minutes: m,
            seconds: s,
            frames: f,
        };
        assert_eq!(timecode, expected);
    }
}

#[test]
fn linear_timecode_reports_its_rate() {
    // At 48 kHz a bit of 24 samples makes 25 frames per second, and one of 20 makes 30.
    for (half_bit, reported, fps) in [
        (12, FramesPerSecond::TwentyFive, 25),
        (10, FramesPerSecond::Thirty, 30),
        (20, FramesPerSecond::Unknown, 12),
    ] {
        let mut parser = TimecodeParser::new(48000, 200, 12);
        parser.push(&ltc_signal(10, half_bit), 5);
        match drain(&mut parser, 5).last() {
            Some(TimecodeEvent::Playing(position)) => {
                assert_eq!(position.frame.frames_per_second, reported);
                assert_eq!(position.fps, fps);
            }
            other => panic!("{other:?}"),
        }
    }
}

#[test]
fn events_alternate() {
    let mut parser = test_parser();
    let mut events = Vec::new();
    let frames = [5, 5, 6, 6, 6, 7, 5, 5];
    for (i, f) in frames.iter().enumerate() {
        let now = i as u128 * 150 * MILLISECOND;
        events.extend(drain(&mut parser, now));
        parser.receive(tc(1, 0, 0, *f), now);
    }
    events.extend(drain(&mut parser, 10_000 * MILLISECOND));
    let playing = |f: u8| TimecodeEvent::Playing(pos(1, 0, 0, f));
    let paused = |f: u8| TimecodeEvent::Paused(pos(1, 0, 0, f));
    assert_eq!(
        events,
        vec![
            playing(5),
            paused(5),
            playing(6),
            paused(6),
            playing(7),
            playing(5),
            paused(5),
        ]
    );
}

#[test]
fn decoder_is_replaced_where_it_cannot_count_on() {
    let samples = ltc_signal(12, 12);
    let mut parser = test_parser();
    parser.push(&samples, 5);
    parser.make_room(usize::MAX / 5 - samples.len());
    assert_eq!(parser.samples_fed(), samples.len());
    parser.make_room(usize::MAX / 5 - samples.len() + 1);
    assert_eq!(parser.samples_fed(), 0);

    // What was read is not forgotten, and a new signal is read as by a new parser.
    let before = drain(&mut parser, 5);
    let mut other = test_parser();
    other.push(&samples, 5);
    assert_eq!(before, drain(&mut other, 5));
    parser.push(&samples, 6);
    assert_eq!(parser.samples_fed(), samples.len());
    assert_eq!(before, drain(&mut parser, 6));
}
