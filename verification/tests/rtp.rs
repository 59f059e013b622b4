use m32_stream::audio::channel_number_frame;
use m32_stream::clock::server_time_ms;
use m32_stream::config::{ChannelConfig, ClientConfig};
use m32_stream::rtp::{build_rtp_header, map_channels, packetize, RtpExtension, FRAME_LENGTH};
use m32_stream::stream::{check_heartbeat, count_enabled, RtpStream, StreamDecision};
use m32_stream::tables::ChannelMapping;

fn mapping(physical: u8, enabled: bool) -> ChannelMapping {
    ChannelMapping {
        physical_channel: physical,
        logical_channel: physical,
        name: String::new(),
        enabled,
        order_index: physical,
    }
}

fn wants(channels: usize) -> ClientConfig {
    let list = (0..channels)
        .map(|i| ChannelConfig { id: i as u8, name: String::new() })
        .collect();
    ClientConfig { channels: Some(list), sample_rate: None, compression: None }
}

fn body(packet: &Vec<u8>) -> Vec<u8> {
    if packet[0] & 0x10 != 0 {
        packet[28..].to_vec()
    } else {
        packet[12..].to_vec()
    }
}

fn samples(bytes: &[u8]) -> Vec<i32> {
    bytes.chunks(4).map(|b| i32::from_le_bytes([b[0], b[1], b[2], b[3]])).collect()
}

#[test]
fn header_has_its_fields_in_place() {
    assert_eq!(
        build_rtp_header(0x0102, 0x03040506, 0x12345678, false),
        vec![0x80, 96, 1, 2, 3, 4, 5, 6, 0x12, 0x34, 0x56, 0x78]
    );
    let marked = build_rtp_header(65535, u32::MAX, 0, true);
    assert_eq!(marked, vec![0x90, 96, 255, 255, 255, 255, 255, 255, 0, 0, 0, 0]);
}

#[test]
fn extension_has_its_fields_in_place() {
    let e = RtpExtension::time_sync_at(0x0102030405060708);
    assert_eq!(
        e.to_bytes(),
        vec![0xBE, 0xDE, 0, 3, 1, 2, 3, 4, 5, 6, 7, 8, 1, 0, 0, 0]
    );
}

#[test]
fn extension_carries_the_present_time() {
    let before = std::time::SystemTime::now()
        .duration_since(std::time::UNIX_EPOCH)
        .map(|d| d.as_millis() as u64)
        .unwrap_or(0);
    let e = RtpExtension::new_time_sync();
    let after = server_time_ms();
    assert!(before <= e.server_time_ms && e.server_time_ms <= after);
    assert_eq!(e.to_bytes()[4..12], e.server_time_ms.to_be_bytes());
}

#[test]
fn audio_is_cut_into_packets() {
    let payload: Vec<u8> = (0..3000u32).map(|i| (i % 251) as u8).collect();
    let packets = packetize(&payload, 65535, 480, None);
    let lengths: Vec<usize> = packets.iter().map(|p| p.len()).collect();
    assert_eq!(lengths, vec![1400, 1400, 12 + 3000 - 2 * 1388]);
    let numbers: Vec<u16> = packets.iter().map(|p| u16::from_be_bytes([p[2], p[3]])).collect();
    assert_eq!(numbers, vec![65535, 0, 1]);
    assert!(packets.iter().all(|p| p[4..8] == 480u32.to_be_bytes()));
    let audio: Vec<u8> = packets.iter().flat_map(body).collect();
    assert_eq!(audio, payload);
}

#[test]
fn first_packet_carries_the_extension() {
    let payload = vec![5u8; 2800];
    let packets = packetize(&payload, 7, 0, Some(RtpExtension::time_sync_at(99)));
    let lengths: Vec<usize> = packets.iter().map(|p| p.len()).collect();
    assert_eq!(lengths, vec![1400, 12 + 1372, 12 + 56]);
    let first_bytes: Vec<u8> = packets.iter().map(|p| p[0]).collect();
    assert_eq!(first_bytes, vec![0x90, 0x80, 0x80]);
    assert_eq!(packets[0][12..14], [0xBE, 0xDE]);
    assert_eq!(packets[0][16..24], 99u64.to_be_bytes());
    let audio: Vec<u8> = packets.iter().flat_map(body).collect();
    assert_eq!(audio, payload);
}

#[test]
fn nothing_to_send_makes_no_packet() {
    assert_eq!(packetize(&Vec::new(), 7, 0, Some(RtpExtension::time_sync_at(99))).len(), 0);
}

#[test]
fn channels_are_mapped_or_silent() {
    let frame: Vec<i32> = (0..64).map(|k| 100 + k).collect();
    let mappings = vec![
        mapping(3, true),
        mapping(1, false),
        mapping(33, true),
        mapping(0, true),
        mapping(32, true),
    ];
    let out = map_channels(&frame, &mappings, 2, 6);
    assert_eq!(out, vec![104, 105, 0, 0, 0, 0, 0, 0, 162, 163, 0, 0]);
    assert_eq!(map_channels(&frame[..63].to_vec(), &mappings[4..].to_vec(), 2, 1), vec![0, 0]);
    assert_eq!(map_channels(&frame, &mappings, 2, 0), Vec::<i32>::new());
}

#[test]
fn silence_of_thirty_seconds_ends_the_stream() {
    assert_eq!(check_heartbeat(Some(0)), StreamDecision::Continue);
    assert_eq!(check_heartbeat(Some(29_999_999_999)), StreamDecision::Continue);
    assert_eq!(check_heartbeat(Some(30_000_000_000)), StreamDecision::HeartbeatTimeout);
    assert_eq!(check_heartbeat(None), StreamDecision::NotRegistered);
}

#[test]
fn stream_has_the_smaller_number_of_channels() {
    let mappings = vec![mapping(1, true), mapping(2, false), mapping(3, true)];
    assert_eq!(count_enabled(&mappings), 2);
    let channels = |config: Option<&ClientConfig>| RtpStream::start(config, &mappings).map(|s| s.channels);
    assert_eq!(channels(None), Some(2));
    assert_eq!(channels(Some(&wants(1))), Some(1));
    assert_eq!(channels(Some(&wants(5))), Some(2));
    assert_eq!(channels(Some(&wants(0))), Some(0));
    assert_eq!(RtpStream::start(None, &vec![mapping(1, false)]), None);
    assert_eq!(RtpStream::start_plain(None).channels, 2);
    assert_eq!(RtpStream::start_plain(Some(&wants(5))).channels, 5);
}

#[test]
fn test_mode_tells_mapped_channels_apart() {
    let mappings = vec![mapping(5, true), mapping(32, true), mapping(1, true)];
    let mut stream = match RtpStream::start(None, &mappings) {
        Some(s) => s,
        None => panic!("no stream"),
    };
    let captured = channel_number_frame(32, FRAME_LENGTH);
    let packets = stream.next_frame_with(&captured, &mappings, None);
    let audio: Vec<u8> = packets.iter().flat_map(body).collect();
    let heard = samples(&audio);
    assert_eq!(heard.len(), 3 * FRAME_LENGTH);
    assert!(heard[..160].iter().all(|&v| v == 4));
    assert!(heard[160..320].iter().all(|&v| v == 31));
    assert!(heard[320..].iter().all(|&v| v == 0));
}

#[test]
fn time_is_sent_every_five_seconds() {
    let mappings = vec![mapping(1, true)];
    let mut stream = match RtpStream::start(None, &mappings) {
        Some(s) => s,
        None => panic!("no stream"),
    };
    let captured = channel_number_frame(32, FRAME_LENGTH);
    let mut timed = Vec::new();
    for frame in 0..501u32 {
        let start = stream;
        let packets = stream.next_frame(&captured, &mappings);
        assert_eq!(packets.len(), 1);
        if packets[0][0] == 0x90 {
            timed.push(frame);
            let t = u64::from_be_bytes([
                packets[0][16],
                packets[0][17],
                packets[0][18],
                packets[0][19],
                packets[0][20],
                packets[0][21],
                packets[0][22],
                packets[0][23],
            ]);
            assert!(t > 1_500_000_000_000);
        }
        assert_eq!(stream.seq, start.seq + 1);
        assert_eq!(stream.timestamp, start.timestamp + 160);
    }
    assert_eq!(timed, vec![0, 250, 500]);
}

#[test]
fn plain_packet_holds_the_frame_as_it_is() {
    let mut stream = RtpStream::start_plain(None);
    let packet = stream.next_plain_packet(&vec![1, -2]);
    assert_eq!(packet[..12], [0x80, 96, 0, 0, 0, 0, 0, 0, 0x12, 0x34, 0x56, 0x78]);
    assert_eq!(samples(&packet[12..]), vec![1, -2]);
    assert_eq!((stream.seq, stream.timestamp, stream.extension_counter), (1, 160, 0));
}

#[test]
fn numbers_wrap_around() {
    let mut stream = RtpStream { seq: 65535, timestamp: u32::MAX, ..RtpStream::start_plain(None) };
    stream.next_plain_packet(&Vec::new());
    assert_eq!((stream.seq, stream.timestamp), (0, 159));
}

#[test]
fn sent_and_failed_packets_are_counted() {
    let mut stream = RtpStream::start_plain(None);
    stream.record_send(true);
    stream.record_send(true);
    stream.record_send(false);
    assert_eq!((stream.sent_packets, stream.send_errors), (2, 1));
}
