use casparcg_timecode::audio::{
    check_audio_channel, choose_device, device_line, normalise, pause_check_interval_ms,
    pick_channel, AudioError,
};

#[test]
fn one_channel_is_picked() {
    let data = [1, 2, 3, 4, 5, 6, 7];
    for channels in 1..5usize {
        for channel in 0..9usize {
            let expected: Vec<i32> = data.iter().skip(channel).step_by(channels).copied().collect();
            assert_eq!(pick_channel(&data, channel, channels), expected);
        }
    }
    assert_eq!(pick_channel(&data, usize::MAX, usize::MAX), Vec::<i32>::new());
}

#[test]
fn samples_are_normalised() {
    let samples: Vec<i16> = vec![0, 1, -1, 2, 1000, -12345, i16::MAX, i16::MIN];
    let numbers = normalise(&samples);
    for (sample, number) in samples.iter().zip(numbers) {
        assert_eq!(number.bits, (*sample as f32 / i16::MAX as f32).to_bits());
    }
}

#[test]
fn channel_must_exist() {
    assert!(check_audio_channel(1, 2).is_ok());
    assert_eq!(
        check_audio_channel(0, 0).unwrap_err().message(),
        "audio device reports 0 channels"
    );
    assert_eq!(
        check_audio_channel(2, 2).unwrap_err().message(),
        "audio_channel 2 out of range for device with 2 channels"
    );
}

#[test]
fn device_is_chosen_by_name() {
    let names: Vec<String> = ["Mic", "BlackHole", "BlackHole"].map(String::from).to_vec();
    let wanted = |name: &str| Some(name.to_string());
    assert_eq!(choose_device(&names, &wanted("BlackHole"), true).unwrap(), Some(1));
    let error = choose_device(&names, &wanted("Line"), true).unwrap_err();
    assert!(matches!(error, AudioError::DeviceNotFound { .. }));
    assert_eq!(error.message(), "audio device 'Line' not found");
    assert_eq!(choose_device(&names, &None, true).unwrap(), None);
    let error = choose_device(&names, &None, false).unwrap_err();
    assert_eq!(error.message(), "no default input device found");
}

#[test]
fn devices_are_listed() {
    let default_name = Some("Mic".to_string());
    assert_eq!(device_line(0, "Mic", &default_name), "  1. Mic [DEFAULT]");
    assert_eq!(device_line(9, "Line", &default_name), "  10. Line");
    assert_eq!(device_line(1, "Line", &None), "  2. Line");
}

#[test]
fn pause_is_looked_for_twice_per_threshold() {
    assert_eq!(pause_check_interval_ms(500), 250);
    assert_eq!(pause_check_interval_ms(11), 5);
}
