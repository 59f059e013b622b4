use m32_stream::audio::{
    capture_audio_frame, capture_audio_frame_mock, channel_number_frame, find_m32_usb_device,
    group_by_channel, open_and_capture, AudioMockMode, CardProbe, SampleFormat, SampleLayout,
};

/// Tones of 500 Hz, 600 Hz and so on, at 48000 samples a second.
fn tones(channels: usize, frames: usize) -> Vec<Vec<i32>> {
    (0..channels)
        .map(|c| {
            let freq = 500.0 + (c as f32) * 100.0;
            (0..frames)
                .map(|f| {
                    let turns = (f + 1) as f32 / 48000.0 * freq;
                    ((turns * 2.0 * std::f32::consts::PI).sin() * 1000000.0) as i32
                })
                .collect()
        })
        .collect()
}

fn card(index: i32, name: &str, long_name: &str) -> CardProbe {
    CardProbe::Card { index, name: name.to_string(), long_name: long_name.to_string() }
}

#[test]
fn test_capture_audio_frame_unit() {
    let channels = 4;
    let frames = 8;
    let data = capture_audio_frame_mock(channels, frames, AudioMockMode::UnitTest, &Vec::new());
    assert_eq!(data.len(), channels * frames);
    for f in 0..frames {
        let start = f * channels;
        let end = start + channels;
        let frame = &data[start..end];
        for &v in frame {
            assert_eq!(v, f as i32);
        }
    }
}

#[test]
fn test_capture_audio_frame_auditory() {
    let channels = 4;
    let frames = 8;
    let tones = tones(channels, frames);
    let data = capture_audio_frame_mock(channels, frames, AudioMockMode::Auditory, &tones);
    assert_eq!(data.len(), channels * frames);
    let frame0 = &data[0..channels];
    let mut unique = std::collections::HashSet::new();
    for &v in frame0 {
        unique.insert(v);
    }
    assert!(unique.len() > 1, "채널별로 값이 달라야 함");
}

#[test]
fn tones_are_interleaved() {
    let tones = vec![vec![1, 2, 3], vec![10, 20, 30]];
    let data = capture_audio_frame_mock(2, 3, AudioMockMode::Auditory, &tones);
    assert_eq!(data, vec![1, 10, 2, 20, 3, 30]);
}

#[test]
fn first_card_with_a_console_name_is_found() {
    let cards = vec![
        card(0, "HDA Intel", "HDA Intel at 0xf7"),
        CardProbe::Absent,
        card(2, "X-USB", "Midas"),
        card(3, "M32", "M32"),
    ];
    assert_eq!(find_m32_usb_device(&cards), Some("hw:2,0".to_string()));
}

#[test]
fn long_name_counts_too() {
    let cards = vec![card(11, "Console", "MIDAS M32 at usb-1")];
    assert_eq!(find_m32_usb_device(&cards), Some("hw:11,0".to_string()));
}

#[test]
fn names_are_case_sensitive() {
    assert_eq!(find_m32_usb_device(&vec![card(1, "usb audio", "m32")]), None);
    assert_eq!(find_m32_usb_device(&Vec::new()), None);
}

#[test]
fn unreadable_card_ends_the_search() {
    let cards = vec![CardProbe::Unreadable, card(1, "USB", "USB")];
    assert_eq!(find_m32_usb_device(&cards), None);
}

#[test]
fn capture_asks_for_interleaved_samples_of_32_bits() {
    let r = open_and_capture("hw:1,0", 32, 48000);
    assert_eq!(r.device, "hw:1,0");
    assert_eq!((r.channels, r.rate), (32, 48000));
    assert_eq!(r.format, SampleFormat::Signed32);
    assert_eq!(r.layout, SampleLayout::Interleaved);
}

#[test]
fn mock_mode_is_read_from_its_name() {
    assert_eq!(AudioMockMode::from_env(Some("unit")), AudioMockMode::UnitTest);
    assert_eq!(AudioMockMode::from_env(Some("auditory")), AudioMockMode::Auditory);
    assert_eq!(AudioMockMode::from_env(Some("Unit")), AudioMockMode::Auditory);
    assert_eq!(AudioMockMode::from_env(None), AudioMockMode::Auditory);
}

#[test]
fn recording_is_used_unless_a_mock_is_asked_for() {
    let numbers = vec![0, 1, 2, 0, 1, 2];
    assert_eq!(capture_audio_frame(3, 2, None, Some(vec![7; 6])), vec![7; 6]);
    assert_eq!(capture_audio_frame(3, 2, Some("unit"), Some(vec![7; 6])), numbers);
    assert_eq!(capture_audio_frame(3, 2, Some(""), None), numbers);
    assert_eq!(capture_audio_frame(3, 2, None, None), numbers);
    assert_eq!(capture_audio_frame(0, 5, None, None), Vec::<i32>::new());
}

#[test]
fn recordings_are_brought_to_the_length_of_a_frame() {
    assert_eq!(capture_audio_frame(2, 2, None, Some(vec![7, 8])), vec![7, 8, 0, 0]);
    assert_eq!(capture_audio_frame(2, 2, None, Some(vec![7, 8, 9, 10, 11])), vec![7, 8, 9, 10]);
    assert_eq!(capture_audio_frame(2, 2, None, Some(Vec::new())), vec![0; 4]);
}

#[test]
fn samples_of_a_channel_come_together() {
    assert_eq!(group_by_channel(&vec![1, 10, 2, 20, 3, 30], 2, 3), vec![1, 2, 3, 10, 20, 30]);
    assert_eq!(group_by_channel(&vec![1, 10, 2], 2, 3), vec![1, 2, 0, 10, 0, 0]);
}

#[test]
fn numbered_channels_stay_apart() {
    let grouped = group_by_channel(&channel_number_frame(3, 4), 3, 4);
    assert_eq!(grouped, vec![0, 0, 0, 0, 1, 1, 1, 1, 2, 2, 2, 2]);
}
