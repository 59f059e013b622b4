use m32_stream::config::{
    copy_channels, count_requested_channels, default_channel_name, default_channels,
    default_settings, load_config, ChannelConfig, ClientConfig, Settings,
};
use m32_stream::mdns::{service_record, SERVER_PORT};

#[test]
fn default_settings_list_32_channels() {
    let s = default_settings();
    assert_eq!(s.compression, "none");
    assert_eq!(s.sample_rate, 48000);
    assert_eq!(s.channels.len(), 32);
    for (i, c) in s.channels.iter().enumerate() {
        assert_eq!(c.id as usize, i + 1);
        assert_eq!(c.name, format!("CH{:02}", i + 1));
    }
}

#[test]
fn channel_names_have_two_digits() {
    assert_eq!(default_channel_name(1), "CH01");
    assert_eq!(default_channel_name(32), "CH32");
    assert_eq!(default_channel_name(255), "CH255");
}

#[test]
fn missing_settings_are_written() {
    let r = load_config(None);
    assert!(r.must_save);
    assert_eq!(r.settings.channels.len(), 32);
    assert_eq!(r.settings.channels[0].name, "CH01");
}

#[test]
fn stored_settings_are_kept() {
    let stored = Settings {
        channels: vec![ChannelConfig { id: 5, name: "Vocal".to_string() }],
        compression: "opus".to_string(),
        sample_rate: 44100,
    };
    let r = load_config(Some(stored.clone()));
    assert!(!r.must_save);
    assert_eq!(format!("{:?}", r.settings), format!("{stored:?}"));
}

#[test]
fn requested_channels_are_counted() {
    let named = ClientConfig {
        channels: Some(copy_channels(&default_channels())),
        sample_rate: None,
        compression: None,
    };
    let unnamed = ClientConfig { channels: None, sample_rate: Some(44100), compression: None };
    assert_eq!(count_requested_channels(Some(&named), 2), 32);
    assert_eq!(count_requested_channels(Some(&unnamed), 2), 2);
    assert_eq!(count_requested_channels(None, 7), 7);
    assert_eq!(format!("{:?}", named.clone()), format!("{named:?}"));
}

#[test]
fn server_is_announced_by_name() {
    let r = service_record();
    assert_eq!(r.service_type, "_http._tcp.local.");
    assert_eq!(r.instance_name, "m32-server");
    assert_eq!(r.host_name, "m32-server.local.");
    assert_eq!(r.address, "0.0.0.0");
    assert_eq!(r.port, SERVER_PORT);
    assert_eq!(SERVER_PORT, 8000);
}
