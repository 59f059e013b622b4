use m32_stream::api::JitterThresholds;
use m32_stream::client::{
    adjust_delay, check_times, client_id, get_jitter_thresholds, initial_delay, local_port,
    wanted_config, NtpState, RtpReceiver,
};
use m32_stream::rtp::{packetize, RtpExtension};
use m32_stream::wire::encode_samples;

const SECOND: u64 = 1_000_000_000;

fn thresholds(interpolate: u32, drop: u32) -> JitterThresholds {
    JitterThresholds { interpolate, drop }
}

/// A packet that was sent at that time, with some audio.
fn timed_packet(seq: u16, sent_ms: u64) -> Vec<u8> {
    let audio = encode_samples(&vec![1, 2]);
    packetize(&audio, seq, 0, Some(RtpExtension::time_sync_at(sent_ms))).remove(0)
}

#[test]
fn environment_then_server_then_default() {
    let server = Some(thresholds(120, 250));
    assert_eq!(get_jitter_thresholds(None, None, None), thresholds(100, 200));
    assert_eq!(get_jitter_thresholds(None, None, server), thresholds(120, 250));
    assert_eq!(get_jitter_thresholds(Some("30"), None, server), thresholds(30, 250));
    assert_eq!(get_jitter_thresholds(None, Some("40"), None), thresholds(100, 40));
    assert_eq!(get_jitter_thresholds(Some("x"), Some("-1"), server), thresholds(120, 250));
    assert_eq!(get_jitter_thresholds(Some(""), Some("4294967296"), None), thresholds(100, 200));
}

#[test]
fn port_and_delay_come_from_the_environment() {
    assert_eq!(local_port(None), 5004);
    assert_eq!(local_port(Some("5005")), 5005);
    assert_eq!(local_port(Some("65536")), 5004);
    assert_eq!(local_port(Some("port")), 5004);
    assert_eq!(initial_delay(None), 0);
    assert_eq!(initial_delay(Some("100")), 100);
    assert_eq!(initial_delay(Some("soon")), 0);
}

#[test]
fn keys_change_the_delay() {
    assert_eq!(adjust_delay(0, b'+'), 10);
    assert_eq!(adjust_delay(25, b'-'), 15);
    assert_eq!(adjust_delay(5, b'-'), 0);
    assert_eq!(adjust_delay(25, b'\n'), 25);
}

#[test]
fn client_names_itself_and_its_wishes() {
    assert_eq!(client_id(5004), "test-client:5004");
    let c = wanted_config();
    assert_eq!(c.sample_rate, Some(48000));
    assert_eq!(c.compression, Some("none".to_string()));
    assert!(matches!(c.channels, Some(list) if list.len() == 32 && list[0].name == "CH01"));
}

#[test]
fn equal_ways_give_the_offset() {
    // The server is 5000 ms ahead, each way takes 7 ms, the server takes 2 ms.
    let s = NtpState::from_times(1000, 6007, 6009, 1016);
    assert_eq!((s.offset, s.rtt), (5000, 14));
    // The server is 500 ms behind.
    let s = NtpState::from_times(1000, 507, 509, 1016);
    assert_eq!((s.offset, s.rtt), (-500, 14));
    assert_eq!(NtpState::new(), NtpState { offset: 0, rtt: 0 });
}

#[test]
fn halves_are_rounded_toward_zero() {
    assert_eq!(NtpState::from_times(10, 13, 13, 10).offset, 3);
    assert_eq!(NtpState::from_times(10, 11, 11, 11).offset, 0);
    assert_eq!(NtpState::from_times(10, 10, 10, 11).offset, 0);
    assert_eq!(NtpState::from_times(10, 8, 8, 11).offset, -2);
}

#[test]
fn round_trip_is_never_negative() {
    assert_eq!(NtpState::from_times(10, 10, 30, 15).rtt, 0);
}

#[test]
fn times_that_make_no_sense_are_told() {
    assert!(check_times(1, 2, 3, 4));
    assert!(!check_times(5, 2, 3, 4));
    assert!(!check_times(1, 3, 2, 4));
    assert!(!check_times(0, i64::MAX as u64, i64::MAX as u64, 0));
    assert!(!check_times(u64::MAX, i64::MAX as u64, i64::MAX as u64, u64::MAX));
    assert!(check_times(u64::MAX - 3, u64::MAX - 2, u64::MAX - 1, u64::MAX));
    assert_eq!(NtpState::from_times(u64::MAX - 10, 4, 5, u64::MAX).offset, 10);
}

#[test]
fn latency_and_jitter_are_measured() {
    let mut r = RtpReceiver::new(0);
    assert!(r.receive(&timed_packet(3, 10_000), 9_020, 1_000));
    assert_eq!((r.last_latency, r.jitter), (Some(20), 0));
    assert!(r.receive(&timed_packet(4, 15_000), 14_005, 1_000));
    assert_eq!((r.last_latency, r.jitter), (Some(5), 15));
    assert!(r.receive(&timed_packet(5, 20_000), 18_990, 1_000));
    assert_eq!((r.last_latency, r.jitter), (Some(-10), 15));
    assert_eq!((r.total_packets, r.extension_packets, r.last_seq), (3, 3, Some(5)));
    assert_eq!(r.total_bytes, 3 * 36);
}

#[test]
fn packets_without_the_time_are_only_counted() {
    let mut r = RtpReceiver::new(0);
    r.receive(&timed_packet(3, 10_000), 10_020, 0);
    let plain = packetize(&encode_samples(&vec![1, 2]), 4, 160, None).remove(0);
    assert!(r.receive(&plain, 99_999, 0));
    assert_eq!((r.last_latency, r.jitter), (Some(20), 0));
    assert_eq!((r.total_packets, r.extension_packets, r.last_seq), (2, 1, Some(4)));
    // Marked, but too short to carry the time.
    let mut short = timed_packet(9, 1)[..31].to_vec();
    assert!(r.receive(&short, 50_000, 0));
    assert_eq!((r.last_latency, r.extension_packets, r.last_seq), (Some(20), 1, Some(9)));
    short.push(0);
    assert!(r.receive(&short, 50_000, 0));
    assert_eq!((r.last_latency, r.extension_packets), (Some(49_999), 2));
}

#[test]
fn too_small_packets_are_dropped() {
    let mut r = RtpReceiver::new(0);
    let before = r;
    assert!(!r.receive(&vec![0x80; 12], 0, 0));
    assert!(!r.receive(&Vec::new(), 0, 0));
    assert_eq!(r, before);
}

#[test]
fn measures_beyond_the_limits_are_told() {
    let r = RtpReceiver::new(0);
    assert!(r.can_receive(&timed_packet(3, 10_000), 10_020, 0));
    assert!(r.can_receive(&Vec::new(), i64::MAX, i64::MAX));
    assert!(!r.can_receive(&timed_packet(3, 10_000), i64::MAX, 1));
    assert!(!r.can_receive(&timed_packet(3, 1 << 63), 0, 0));
    assert!(r.can_receive(&timed_packet(3, 1 << 63), -1, 0));
    let full = RtpReceiver { total_packets: u32::MAX, ..r };
    assert!(!full.can_receive(&vec![0x80; 13], 0, 0));
    let far = RtpReceiver { last_latency: Some(i64::MIN), ..r };
    assert!(!far.can_receive(&timed_packet(3, 0), 0, 0));
}

#[test]
fn reports_are_due_every_second() {
    let mut r = RtpReceiver::new(5);
    r.receive(&timed_packet(3, 10_000), 10_020, 0);
    assert_eq!(r.qos_report(SECOND + 4), None);
    let report = match r.qos_report(SECOND + 5) {
        Some(report) => report,
        None => panic!("no report"),
    };
    assert_eq!((report.packets_received, report.packets_expected), (1, 1));
    assert_eq!((report.latency_ms, report.jitter_ms, report.total_bytes), (20, 0, 36));
    r.reported(SECOND + 5);
    assert_eq!(r.qos_report(SECOND + 6), None);
    assert_eq!(r.qos_report(0), None);
    assert!(r.qos_report(2 * SECOND + 5).is_some());
}

#[test]
fn throughput_starts_anew_every_second() {
    let mut r = RtpReceiver::new(0);
    r.receive(&vec![0x80; 100], 0, 0);
    assert_eq!(r.throughput(SECOND - 1), None);
    assert_eq!(r.throughput(SECOND), Some(100));
    assert_eq!(r.throughput(SECOND), None);
    r.receive(&vec![0x80; 50], 0, 0);
    assert_eq!(r.throughput(2 * SECOND), Some(50));
    assert_eq!(r.total_bytes, 150);
}

/// A packet without the time, with a number and a timestamp.
fn plain_packet(seq: u16, timestamp: u32) -> Vec<u8> {
    packetize(&encode_samples(&vec![1, 2]), seq, timestamp, None).remove(0)
}

#[test]
fn lost_packets_are_expected() {
    let mut r = RtpReceiver::new(0);
    for seq in [1, 5] {
        r.receive(&plain_packet(seq, 0), 0, 0);
    }
    assert_eq!((r.total_packets, r.expected_packets, r.highest_seq), (2, 5, Some(5)));
    // Late and repeated packets add nothing, and neither does one from before the first.
    for seq in [3, 5, 0] {
        r.receive(&plain_packet(seq, 0), 0, 0);
    }
    assert_eq!((r.total_packets, r.expected_packets, r.highest_seq), (5, 5, Some(5)));
    assert!(matches!(
        r.qos_report(SECOND),
        Some(q) if q.packets_received == 5 && q.packets_expected == 5
    ));
}

#[test]
fn numbers_that_start_again_are_counted_on() {
    let mut r = RtpReceiver::new(0);
    for seq in [65534, 65535, 0, 2] {
        r.receive(&plain_packet(seq, 0), 0, 0);
    }
    assert_eq!((r.total_packets, r.expected_packets, r.highest_seq), (4, 5, Some(2)));
    let full = RtpReceiver { expected_packets: u32::MAX, ..r };
    assert!(full.can_receive(&plain_packet(2, 0), 0, 0));
    assert!(!full.can_receive(&plain_packet(3, 0), 0, 0));
}

#[test]
fn arrival_is_measured_against_timestamps() {
    let mut r = RtpReceiver::new(0);
    r.receive(&plain_packet(1, 1000), 500, 0);
    assert_eq!(r.arrival_variation, 0);
    r.receive(&plain_packet(2, 1160), 520, 0);
    assert_eq!(r.arrival_variation, 0);
    r.receive(&plain_packet(3, 1320), 545, 0);
    assert_eq!(r.arrival_variation, 5 * 8);
    r.receive(&plain_packet(4, 1480), 560, 0);
    assert_eq!(r.arrival_variation, 5 * 8);
    r.receive(&plain_packet(5, 1480), 561, 0);
    assert_eq!(r.arrival_variation, 8);
    let late = RtpReceiver { last_timestamp: u32::MAX - 79, ..r };
    let mut wrapped = late;
    wrapped.receive(&plain_packet(6, 80), 581, 0);
    assert_eq!(wrapped.arrival_variation, 0);
}
