use m32_stream::config::{default_settings, ClientConfig};
use m32_stream::session::{
    rtp_destination, AddrMap, AudioReply, ClientAddr, ServerState, MAX_CLIENTS,
};
use m32_stream::stream::{check_heartbeat, StreamDecision};
use m32_stream::tables::ChannelMapping;

const SECOND: u64 = 1_000_000_000;

fn addr(host: u128, port: u16) -> ClientAddr {
    ClientAddr { host, long: false, zone: 0, port }
}

fn wanted() -> ClientConfig {
    ClientConfig { channels: None, sample_rate: None, compression: None }
}

fn mappings(enabled: bool) -> Vec<ChannelMapping> {
    vec![ChannelMapping {
        physical_channel: 1,
        logical_channel: 1,
        name: "CH01".to_string(),
        enabled,
        order_index: 1,
    }]
}

#[test]
fn map_keeps_one_entry_for_each_client() {
    let mut map: AddrMap<u64> = AddrMap::new();
    assert_eq!(map.get(addr(1, 1)), None);
    map.insert(addr(1, 1), 10);
    map.insert(addr(1, 2), 20);
    map.insert(addr(1, 1), 30);
    assert_eq!(map.count(), 2);
    assert_eq!(map.get(addr(1, 1)), Some(&30));
    assert_eq!(map.get(addr(1, 2)), Some(&20));
    map.remove(addr(1, 1));
    map.remove(addr(9, 9));
    assert_eq!(map.count(), 1);
    assert!(!map.contains(addr(1, 1)));
    assert!(map.contains(addr(1, 2)));
}

#[test]
fn audio_goes_to_the_usual_port() {
    let to = rtp_destination(ClientAddr { host: 7, long: true, zone: 3, port: 41000 });
    assert_eq!(to, ClientAddr { host: 7, long: true, zone: 3, port: 5004 });
}

#[test]
fn requests_are_answered() {
    let mut state = ServerState::new(default_settings());
    let a = addr(1, 40000);
    assert_eq!(state.request_audio(a, 0, None), AudioReply::Error);
    assert_eq!(state.request_audio(a, 0, Some(&Vec::new())), AudioReply::NoChannels);
    assert_eq!(state.request_audio(a, 0, Some(&mappings(false))), AudioReply::NoChannels);
    assert!(!state.is_streaming(a));
    assert_eq!(state.request_audio(a, 0, Some(&mappings(true))), AudioReply::Waiting);
    assert!(!state.is_streaming(a));
    state.remember_config(a, wanted());
    assert_eq!(state.request_audio(a, 0, Some(&mappings(true))), AudioReply::Started);
    assert!(state.is_streaming(a));
    assert!(!state.is_waiting(a));
    assert_eq!(state.request_audio(a, 9, None), AudioReply::Streaming);
    assert_eq!(state.silent_for(a, 9), Some(9));
    assert_eq!(state.client_count(), 1);
}

#[test]
fn answers_have_their_texts() {
    assert_eq!(AudioReply::Streaming.text(), "streaming");
    assert_eq!(AudioReply::Error.text(), "error");
    assert_eq!(AudioReply::NoChannels.text(), "no_channels");
    assert_eq!(AudioReply::Full.text(), "full");
    assert_eq!(AudioReply::Waiting.text(), "waiting");
    assert_eq!(AudioReply::Started.text(), "started");
}

#[test]
fn heartbeat_keeps_the_stream() {
    let mut state = ServerState::new(default_settings());
    let a = addr(1, 40000);
    assert_eq!(state.heartbeat(a, 0), "ok");
    assert_eq!(state.silent_for(a, 5), None);
    assert_eq!(check_heartbeat(state.silent_for(a, 5)), StreamDecision::NotRegistered);
    state.remember_config(a, wanted());
    state.request_audio(a, 0, Some(&mappings(true)));
    assert_eq!(state.heartbeat(a, 20 * SECOND), "ok");
    let decide = |s: &ServerState, t: u64| check_heartbeat(s.silent_for(a, t));
    assert_eq!(decide(&state, 10 * SECOND), StreamDecision::Continue);
    assert_eq!(decide(&state, 49 * SECOND), StreamDecision::Continue);
    assert_eq!(decide(&state, 50 * SECOND), StreamDecision::HeartbeatTimeout);
}

#[test]
fn client_may_return() {
    let mut state = ServerState::new(default_settings());
    let a = addr(1, 40000);
    let b = addr(2, 40000);
    state.remember_config(a, wanted());
    state.remember_config(b, wanted());
    state.request_audio(a, 0, Some(&mappings(true)));
    state.request_audio(b, 3, Some(&mappings(true)));
    state.end_stream(a);
    assert!(!state.is_streaming(a));
    assert_eq!(state.silent_for(b, 10), Some(7));
    assert_eq!(state.request_audio(a, 40 * SECOND, Some(&mappings(true))), AudioReply::Started);
    assert_eq!(state.silent_for(a, 41 * SECOND), Some(SECOND));
}

#[test]
fn requests_of_clients_are_noted_once_stored() {
    let mut state = ServerState::new(default_settings());
    let a = addr(1, 40000);
    let config = |rate: u32| ClientConfig {
        channels: None,
        sample_rate: Some(rate),
        compression: None,
    };
    assert!(state.config_of(a).is_none());
    assert_eq!(state.client_config(a, config(44100), false), "error");
    assert!(state.config_of(a).is_none());
    assert_eq!(state.client_config(a, config(44100), true), "ok");
    assert!(matches!(state.config_of(a), Some(c) if c.sample_rate == Some(44100)));
    state.remember_config(a, config(32000));
    assert!(matches!(state.config_of(a), Some(c) if c.sample_rate == Some(32000)));
    assert!(state.config_of(addr(1, 40001)).is_none());
}

#[test]
fn settings_are_shown() {
    let mut state = ServerState::new(default_settings());
    assert_eq!(state.settings().sample_rate, 48000);
    assert_eq!(state.api_channels().len(), 32);
    assert_eq!(state.api_channels()[9].name, "CH10");
    state.count_packet();
    state.count_packet();
    assert_eq!(state.packets_sent(), 2);
}

#[test]
fn open_sockets_are_told() {
    let mut state = ServerState::new(default_settings());
    assert_eq!(state.audience(), Vec::new());
    state.connect(addr(1, 40000));
    state.connect(addr(2, 40000));
    state.connect(addr(1, 40000));
    let mut told: Vec<u128> = state.audience().iter().map(|a| a.host).collect();
    told.sort();
    assert_eq!(told, vec![1, 2]);
    state.remember_config(addr(1, 40000), wanted());
    state.request_audio(addr(1, 40000), 0, Some(&mappings(true)));
    state.end_stream(addr(1, 40000));
    state.disconnect(addr(2, 40000));
    assert_eq!(state.audience(), vec![addr(1, 40000)]);
}

#[test]
fn twenty_clients_are_sent_audio() {
    let mut state = ServerState::new(default_settings());
    assert_eq!(MAX_CLIENTS, 20);
    for host in 1..=20 {
        state.remember_config(addr(host, 0), wanted());
        assert_eq!(
            state.request_audio(addr(host, 0), 0, Some(&mappings(true))),
            AudioReply::Started
        );
    }
    let late = addr(21, 0);
    state.remember_config(late, wanted());
    assert_eq!(state.request_audio(late, 0, Some(&mappings(true))), AudioReply::Full);
    assert_eq!(state.client_count(), 20);
    assert!(!state.is_streaming(late));
    assert_eq!(state.request_audio(addr(5, 0), 0, Some(&mappings(true))), AudioReply::Streaming);
    state.end_stream(addr(5, 0));
    assert_eq!(state.request_audio(late, 0, Some(&mappings(true))), AudioReply::Started);
    assert_eq!(state.client_count(), 20);
}

#[test]
fn waiting_client_is_started_by_its_config() {
    let mut state = ServerState::new(default_settings());
    let a = addr(1, 0);
    assert!(!state.start_waiting(a, 1, Some(&mappings(true))));
    assert_eq!(state.request_audio(a, 1, Some(&mappings(true))), AudioReply::Waiting);
    assert!(state.is_waiting(a));
    assert!(!state.start_waiting(a, 2, Some(&mappings(true))));
    assert_eq!(state.client_config(a, wanted(), false), "error");
    assert!(!state.start_waiting(a, 3, Some(&mappings(true))));
    assert_eq!(state.client_config(a, wanted(), true), "ok");
    assert!(!state.start_waiting(a, 4, None));
    assert!(state.start_waiting(a, 5, Some(&mappings(true))));
    assert!(!state.is_waiting(a));
    assert_eq!(state.silent_for(a, 7), Some(2));
    assert!(!state.start_waiting(a, 9, Some(&mappings(true))));
}

#[test]
fn all_streams_end_at_once() {
    let mut state = ServerState::new(default_settings());
    for host in 1..=3 {
        state.remember_config(addr(host, 0), wanted());
        state.request_audio(addr(host, 0), 0, Some(&mappings(true)));
    }
    let mut ended: Vec<u128> = state.end_all_streams().iter().map(|a| a.host).collect();
    ended.sort();
    assert_eq!(ended, vec![1, 2, 3]);
    assert_eq!(state.client_count(), 0);
    assert_eq!(check_heartbeat(state.silent_for(addr(1, 0), 1)), StreamDecision::NotRegistered);
    assert_eq!(state.request_audio(addr(1, 0), 2, Some(&mappings(true))), AudioReply::Started);
}

#[test]
fn clients_of_one_host_are_apart() {
    let mut state = ServerState::new(default_settings());
    for port in [40000, 40002] {
        state.remember_config(addr(1, port), wanted());
        assert_eq!(
            state.request_stream(addr(1, port), 0, Some(&mappings(true))),
            AudioReply::Started
        );
    }
    assert_eq!(state.client_count(), 2);
    state.heartbeat(addr(1, 40000), 5);
    assert_eq!(state.silent_for(addr(1, 40000), 9), Some(4));
    assert_eq!(state.silent_for(addr(1, 40002), 9), Some(9));
    state.end_stream(addr(1, 40000));
    assert!(state.is_streaming(addr(1, 40002)));
}

#[test]
fn what_a_socket_says_counts_for_a_request_of_its_host() {
    let mut state = ServerState::new(default_settings());
    let (socket, request) = (addr(1, 50000), addr(1, 50001));
    state.connect(socket);
    assert_eq!(state.socket_config(socket, wanted(), 0, Some(&mappings(true))), None);
    // Another host knows nothing of it.
    let stranger = addr(2, 50001);
    assert_eq!(state.request_stream(stranger, 0, Some(&mappings(true))), AudioReply::Waiting);
    assert_eq!(state.request_stream(request, 1, None), AudioReply::Error);
    assert_eq!(state.request_stream(request, 2, Some(&mappings(true))), AudioReply::Started);
    state.socket_heartbeat(socket, 20);
    assert_eq!(state.silent_for(request, 25), Some(5));
    assert!(state.config_of(request).is_some());
    // The socket is taken now, so a second client of the host waits for its own.
    let second = addr(1, 50003);
    assert_eq!(state.request_stream(second, 3, Some(&mappings(true))), AudioReply::Waiting);
    state.connect(addr(1, 50002));
    assert_eq!(
        state.socket_config(addr(1, 50002), wanted(), 30, Some(&mappings(true))),
        Some(second)
    );
    state.socket_heartbeat(addr(1, 50002), 40);
    assert_eq!(state.silent_for(second, 45), Some(5));
    assert_eq!(state.silent_for(request, 45), Some(25));
}

#[test]
fn socket_is_free_again_when_its_stream_ends() {
    let mut state = ServerState::new(default_settings());
    let socket = addr(1, 50000);
    state.connect(socket);
    state.socket_config(socket, wanted(), 0, Some(&mappings(true)));
    assert_eq!(state.request_stream(addr(1, 1), 0, Some(&mappings(true))), AudioReply::Started);
    state.end_stream(addr(1, 1));
    assert_eq!(state.request_stream(addr(1, 2), 0, Some(&mappings(true))), AudioReply::Started);
    state.end_all_streams();
    assert_eq!(state.request_stream(addr(1, 3), 0, Some(&mappings(true))), AudioReply::Started);
    state.socket_heartbeat(socket, 7);
    assert_eq!(state.silent_for(addr(1, 3), 9), Some(2));
    state.disconnect(socket);
    state.socket_heartbeat(socket, 8);
    assert_eq!(state.silent_for(addr(1, 3), 9), Some(2));
    assert_eq!(state.request_stream(addr(1, 4), 0, Some(&mappings(true))), AudioReply::Waiting);
}

#[test]
fn waiting_client_without_mappings_goes_on_waiting() {
    let mut state = ServerState::new(default_settings());
    let (socket, request) = (addr(1, 50000), addr(1, 50001));
    state.connect(socket);
    assert_eq!(state.request_stream(request, 0, Some(&mappings(true))), AudioReply::Waiting);
    assert_eq!(state.socket_config(socket, wanted(), 1, None), None);
    assert!(state.is_waiting(request));
    assert_eq!(state.request_stream(request, 2, Some(&mappings(true))), AudioReply::Started);
    state.socket_heartbeat(socket, 3);
    assert_eq!(state.silent_for(request, 3), Some(0));
}
