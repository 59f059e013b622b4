//! The client that receives the audio: its thresholds, its clock and what it measures.

use crate::api::JitterThresholds;
use crate::config::{
    default_channel_list, default_channels, ClientConfig, ClientConfigView, DEFAULT_SAMPLE_RATE,
};
use crate::database::{DEFAULT_JITTER_DROP, DEFAULT_JITTER_INTERPOLATE};
use crate::rtp::{
    marks_extension, sequence_of, server_time_of, timestamp_of, EXTENSION_SIZE, HEADER_SIZE, RTP_PORT,
};
use crate::session::elapsed;
use crate::text::{decimal, decimal_text, parse_u32, u32_value};
use crate::wire::read_be;
use vstd::prelude::*;
use vstd::string::StringExecFns;

verus! {

/// How often the client reports what it measured, in nanoseconds.
pub const REPORT_INTERVAL_NS: u64 = 1_000_000_000;

/// How many steps of a timestamp the server makes in a millisecond: the length of a frame for each
/// interval between two frames.
pub const TIMESTAMP_STEPS_PER_MS: i128 = 8;

/// By how many milliseconds one key stroke changes the simulated delay.
pub const DELAY_STEP_MS: u64 = 10;

/// What a setting of the environment means, where it is set and is a number.
pub open spec fn env_number(setting: Option<Seq<char>>) -> Option<u32> {
    match setting {
        Some(s) => u32_value(s),
        None => None,
    }
}

/// A threshold: that of the environment, else that of the server, else the default.
pub open spec fn threshold(setting: Option<Seq<char>>, server: Option<u32>, otherwise: u32) -> u32 {
    match env_number(setting) {
        Some(n) => n,
        None => match server {
            Some(n) => n,
            None => otherwise,
        },
    }
}

fn read_setting(setting: Option<&str>) -> (r: Option<u32>)
    ensures
        r == env_number(
            match setting {
                Some(s) => Some(s@),
                None => None,
            },
        ),
{
    match setting {
        Some(s) => parse_u32(s),
        None => None,
    }
}

/// The jitter thresholds of the client: each is that of the environment, else that of the server,
/// else the default.
pub fn get_jitter_thresholds(
    interpolate_setting: Option<&str>,
    drop_setting: Option<&str>,
    server: Option<JitterThresholds>,
) -> (r: JitterThresholds)
    ensures
        r.interpolate == threshold(
            match interpolate_setting {
                Some(s) => Some(s@),
                None => None,
            },
            match server {
                Some(t) => Some(t.interpolate),
                None => None,
            },
            DEFAULT_JITTER_INTERPOLATE,
        ),
        r.drop == threshold(
            match drop_setting {
                Some(s) => Some(s@),
                None => None,
            },
            match server {
                Some(t) => Some(t.drop),
                None => None,
            },
            DEFAULT_JITTER_DROP,
        ),
{
    let (base_interpolate, base_drop): (u32, u32) = match server {
        Some(t) => (t.interpolate, t.drop),
        None => (DEFAULT_JITTER_INTERPOLATE, DEFAULT_JITTER_DROP),
    };
    JitterThresholds {
        interpolate: match read_setting(interpolate_setting) {
            Some(n) => n,
            None => base_interpolate,
        },
        drop: match read_setting(drop_setting) {
            Some(n) => n,
            None => base_drop,
        },
    }
}

/// The port on which the client receives: that of the environment where it is one, else the usual
/// one.
pub fn local_port(setting: Option<&str>) -> (r: u16)
    ensures
        r == match env_number(
            match setting {
                Some(s) => Some(s@),
                None => None,
            },
        ) {
            Some(n) => if n <= u16::MAX {
                n as u16
            } else {
                RTP_PORT
            },
            None => RTP_PORT,
        },
{
    match read_setting(setting) {
        Some(n) => if n <= u16::MAX as u32 {
            n as u16
        } else {
            RTP_PORT
        },
        None => RTP_PORT,
    }
}

/// The milliseconds by which the client holds each packet back at first: those of the environment,
/// else none.
pub fn initial_delay(setting: Option<&str>) -> (r: u64)
    ensures
        r == match env_number(
            match setting {
                Some(s) => Some(s@),
                None => None,
            },
        ) {
            Some(n) => n as u64,
            None => 0,
        },
{
    match read_setting(setting) {
        Some(n) => n as u64,
        None => 0,
    }
}

/// The delay after a key stroke: `+` adds to it, `-` takes away from it as far as it goes.
pub open spec fn adjusted_delay(delay_ms: u64, key: u8) -> int {
    if key == 0x2B {
        delay_ms + DELAY_STEP_MS
    } else if key == 0x2D {
        if delay_ms >= DELAY_STEP_MS {
            delay_ms - DELAY_STEP_MS
        } else {
            0
        }
    } else {
        delay_ms as int
    }
}

/// The delay after a key stroke.
pub fn adjust_delay(delay_ms: u64, key: u8) -> (r: u64)
    requires
        adjusted_delay(delay_ms, key) <= u64::MAX,
    ensures
        r == adjusted_delay(delay_ms, key),
{
    if key == 0x2B {
        delay_ms + DELAY_STEP_MS
    } else if key == 0x2D {
        if delay_ms >= DELAY_STEP_MS {
            delay_ms - DELAY_STEP_MS
        } else {
            0
        }
    } else {
        delay_ms
    }
}

/// The name that the client gives itself.
pub fn client_id(port: u16) -> (r: String)
    ensures
        r@ == "test-client:"@ + decimal(port as nat),
{
    let mut s = "test-client:".to_owned();
    s.append(decimal_text(port as u64).as_str());
    s
}

/// What the client asks for: all channels, without compression, at the usual rate.
pub fn wanted_config() -> (r: ClientConfig)
    ensures
        r@ == (ClientConfigView {
            channels: Some(default_channel_list()),
            sample_rate: Some(DEFAULT_SAMPLE_RATE),
            compression: Some("none"@),
        }),
{
    ClientConfig {
        channels: Some(default_channels()),
        sample_rate: Some(DEFAULT_SAMPLE_RATE),
        compression: Some("none".to_owned()),
    }
}

/// What the client knows of the server's clock.
#[derive(Debug, Clone, Copy, PartialEq, Eq, Structural)]
pub struct NtpState {
    /// What has to be added to the client's time for the server's, in milliseconds.
    pub offset: i64,
    /// The milliseconds that a request and its answer were on their way.
    pub rtt: u64,
}

/// A 64-bit number read as a signed one.
pub open spec fn signed(n: u64) -> int {
    if n <= i64::MAX {
        n as int
    } else {
        n - 0x1_0000_0000_0000_0000
    }
}

/// Half of a number, rounded toward zero.
pub open spec fn half(n: int) -> int {
    if n >= 0 {
        n / 2
    } else {
        -((-n) / 2)
    }
}

/// The time that a request sent at `t1` and its answer received at `t4` were on their way, where
/// the server had the request from `t2` to `t3`.
pub open spec fn round_trip(t1: u64, t2: u64, t3: u64, t4: u64) -> int {
    if t4 - t1 >= t3 - t2 {
        (t4 - t1) - (t3 - t2)
    } else {
        0
    }
}

/// The sum of what the server's clock was ahead on the way there and on the way back.
pub open spec fn double_offset(t1: u64, t2: u64, t3: u64, t4: u64) -> int {
    (signed(t2) - signed(t1)) + (signed(t3) - signed(t4))
}

pub open spec fn fits_i64(n: int) -> bool {
    i64::MIN <= n <= i64::MAX
}

/// Whether four times can be made sense of: neither side answers before it was asked, and no
/// difference goes beyond 64 bits.
pub open spec fn times_fit(t1: u64, t2: u64, t3: u64, t4: u64) -> bool {
    &&& t1 <= t4
    &&& t2 <= t3
    &&& fits_i64(signed(t2) - signed(t1))
    &&& fits_i64(signed(t3) - signed(t4))
    &&& fits_i64(double_offset(t1, t2, t3, t4))
}

fn to_signed(n: u64) -> (r: i64)
    ensures
        r == signed(n),
{
    if n <= i64::MAX as u64 {
        n as i64
    } else {
        -((u64::MAX - n) as i64) - 1
    }
}

fn in_i64(n: i128) -> (r: bool)
    ensures
        r == fits_i64(n as int),
{
    i64::MIN as i128 <= n && n <= i64::MAX as i128
}

/// Whether four times can be made sense of.
pub fn check_times(t1: u64, t2: u64, t3: u64, t4: u64) -> (r: bool)
    ensures
        r == times_fit(t1, t2, t3, t4),
{
    let there: i128 = to_signed(t2) as i128 - to_signed(t1) as i128;
    let back: i128 = to_signed(t3) as i128 - to_signed(t4) as i128;
    t1 <= t4 && t2 <= t3 && in_i64(there) && in_i64(back) && in_i64(there + back)
}

impl NtpState {
    /// Before any answer, both clocks are taken to agree.
    pub fn new() -> (r: NtpState)
        ensures
            r == (NtpState { offset: 0, rtt: 0 }),
    {
        NtpState { offset: 0, rtt: 0 }
    }

    /// What the client learns from an answer that it receives at `t4`.
    pub fn from_times(t1: u64, t2: u64, t3: u64, t4: u64) -> (r: NtpState)
        requires
            times_fit(t1, t2, t3, t4),
        ensures
            r.rtt == round_trip(t1, t2, t3, t4),
            r.offset == half(double_offset(t1, t2, t3, t4)),
    {
        let rtt: u64 = (t4 - t1).saturating_sub(t3 - t2);
        let sum: i64 = (to_signed(t2) - to_signed(t1)) + (to_signed(t3) - to_signed(t4));
        let offset: i64 = if sum >= 0 {
            sum / 2
        } else {
            let size: i128 = -(sum as i128);
            (-(size / 2)) as i64
        };
        NtpState { offset, rtt }
    }
}

/// What the client has received and measured so far. Times are nanoseconds on one clock.
#[derive(Debug, Clone, Copy, PartialEq, Eq, Structural)]
pub struct RtpReceiver {
    pub total_packets: u32,
    pub total_bytes: u64,
    /// The packets that carried the server's time.
    pub extension_packets: u32,
    pub last_seq: Option<u16>,
    /// The sequence number that is furthest ahead.
    pub highest_seq: Option<u16>,
    /// The packets that the server numbered from the first one received to that one.
    pub expected_packets: u32,
    /// When the last packet came, in milliseconds.
    pub last_received_ms: Option<i64>,
    /// The timestamp of the last packet.
    pub last_timestamp: u32,
    /// By how much the time between the last two packets differed from the time between their
    /// timestamps, in steps of a timestamp.
    pub arrival_variation: i128,
    /// The latency of the last packet that carried the server's time, in milliseconds.
    pub last_latency: Option<i64>,
    /// How much that latency differed from the one before, in milliseconds.
    pub jitter: i64,
    pub bytes_in_last_sec: u64,
    pub last_report_ns: u64,
    pub last_throughput_ns: u64,
}

/// What the client reports to the server.
#[derive(Debug, Clone, Copy, PartialEq, Eq, Structural)]
pub struct QosReport {
    pub packets_received: u32,
    pub packets_expected: u32,
    pub arrival_variation: i128,
    pub jitter_ms: i64,
    pub latency_ms: i64,
    pub total_bytes: u64,
}

/// Whether what was received is long enough to be a packet.
pub open spec fn is_packet(packet: Seq<u8>) -> bool {
    packet.len() > HEADER_SIZE
}

/// Whether a packet carries the server's time.
pub open spec fn carries_time(packet: Seq<u8>) -> bool {
    is_packet(packet) && marks_extension(packet) && packet.len() >= HEADER_SIZE + EXTENSION_SIZE + 4
}

/// How long a packet was on its way: the time at which it came, by the server's clock, less the
/// time that it carries.
pub open spec fn latency_of(packet: Seq<u8>, received_ms: i64, offset: i64) -> int {
    (received_ms + offset) - signed(server_time_of(packet) as u64)
}

/// How much a latency differs from the one before it, if there was one.
pub open spec fn jitter_of(latency: int, last: Option<i64>) -> int {
    match last {
        Some(l) => if latency >= l {
            latency - l
        } else {
            l - latency
        },
        None => 0,
    }
}

/// How far a sequence number is ahead of another, if it is not behind it.
pub open spec fn steps_ahead(from: u16, to: u16) -> int {
    (to - from) % 0x1_0000
}

/// Whether a sequence number is ahead of another or the same: by less than half of all numbers.
pub open spec fn is_ahead(from: u16, to: u16) -> bool {
    steps_ahead(from, to) < 0x8000
}

/// The number that is furthest ahead after one more.
pub open spec fn highest_after(highest: Option<u16>, seq: u16) -> u16 {
    match highest {
        Some(h) => if is_ahead(h, seq) {
            seq
        } else {
            h
        },
        None => seq,
    }
}

/// How many packets were numbered from the first one received to the one furthest ahead, after one
/// more. Numbers that start from 0 again are counted on.
pub open spec fn expected_after(highest: Option<u16>, expected: int, seq: u16) -> int {
    match highest {
        Some(h) => if is_ahead(h, seq) {
            expected + steps_ahead(h, seq)
        } else {
            expected
        },
        None => 1,
    }
}

/// The step from one timestamp to another, back where that is shorter.
pub open spec fn timestamp_step(from: u32, to: u32) -> int {
    let forward = (to - from) % 0x1_0000_0000;
    if forward < 0x8000_0000 {
        forward
    } else {
        forward - 0x1_0000_0000
    }
}

/// By how much the time between two packets differs from the time between their timestamps, in
/// steps of a timestamp.
pub open spec fn variation_of(s: RtpReceiver, received_ms: i64, timestamp: u32) -> int {
    match s.last_received_ms {
        Some(last) => {
            let d = (received_ms - last) * TIMESTAMP_STEPS_PER_MS - timestamp_step(
                s.last_timestamp,
                timestamp,
            );
            if d >= 0 {
                d
            } else {
                -d
            }
        },
        None => 0,
    }
}

/// Whether a packet can be counted and measured within 64 bits.
pub open spec fn measures_fit(
    s: RtpReceiver,
    packet: Seq<u8>,
    received_ms: i64,
    offset: i64,
) -> bool {
    is_packet(packet) ==> {
        &&& s.total_packets < u32::MAX
        &&& s.total_bytes + packet.len() <= u64::MAX
        &&& s.bytes_in_last_sec + packet.len() <= u64::MAX
        &&& expected_after(
            s.highest_seq,
            s.expected_packets as int,
            sequence_of(packet) as u16,
        ) <= u32::MAX
        &&& carries_time(packet) ==> {
            let latency = latency_of(packet, received_ms, offset);
            &&& s.extension_packets < u32::MAX
            &&& fits_i64(received_ms + offset)
            &&& fits_i64(latency)
            &&& s.last_latency matches Some(l) ==> fits_i64(latency - l) && latency - l != i64::MIN
        }
    }
}

/// What the client has measured after one more packet.
pub open spec fn received(
    s: RtpReceiver,
    packet: Seq<u8>,
    received_ms: i64,
    offset: i64,
) -> RtpReceiver {
    if !is_packet(packet) {
        s
    } else {
        let latency = latency_of(packet, received_ms, offset);
        let timed = carries_time(packet);
        RtpReceiver {
            total_packets: (s.total_packets + 1) as u32,
            total_bytes: (s.total_bytes + packet.len()) as u64,
            bytes_in_last_sec: (s.bytes_in_last_sec + packet.len()) as u64,
            extension_packets: if timed {
                (s.extension_packets + 1) as u32
            } else {
                s.extension_packets
            },
            last_latency: if timed {
                Some(latency as i64)
            } else {
                s.last_latency
            },
            jitter: if timed {
                jitter_of(latency, s.last_latency) as i64
            } else {
                s.jitter
            },
            last_seq: Some(sequence_of(packet) as u16),
            highest_seq: Some(highest_after(s.highest_seq, sequence_of(packet) as u16)),
            expected_packets: expected_after(
                s.highest_seq,
                s.expected_packets as int,
                sequence_of(packet) as u16,
            ) as u32,
            last_received_ms: Some(received_ms),
            last_timestamp: timestamp_of(packet) as u32,
            arrival_variation: variation_of(s, received_ms, timestamp_of(packet) as u32) as i128,
            ..s
        }
    }
}

/// What the client reports of what it measured: the packets that came and those that the server
/// numbered meanwhile among it.
pub open spec fn report_of(s: RtpReceiver) -> QosReport {
    QosReport {
        packets_received: s.total_packets,
        packets_expected: s.expected_packets,
        arrival_variation: s.arrival_variation,
        jitter_ms: s.jitter,
        latency_ms: match s.last_latency {
            Some(l) => l,
            None => 0,
        },
        total_bytes: s.total_bytes,
    }
}

fn count_ahead(from: u16, to: u16) -> (r: u32)
    ensures
        r == steps_ahead(from, to),
{
    if to >= from {
        (to - from) as u32
    } else {
        0x1_0000 - (from - to) as u32
    }
}

fn step_between(from: u32, to: u32) -> (r: i64)
    ensures
        r == timestamp_step(from, to),
{
    let forward: i64 = if to >= from {
        (to - from) as i64
    } else {
        0x1_0000_0000 - (from - to) as i64
    };
    if forward < 0x8000_0000 {
        forward
    } else {
        forward - 0x1_0000_0000
    }
}

fn is_marked(first: u8) -> (r: bool)
    ensures
        r == ((first / 16) % 2 == 1),
{
    (first / 16) % 2 == 1
}

impl RtpReceiver {
    /// A client that has received nothing yet.
    pub fn new(now_ns: u64) -> (r: RtpReceiver)
        ensures
            r == (RtpReceiver {
                total_packets: 0,
                total_bytes: 0,
                extension_packets: 0,
                last_seq: None,
                highest_seq: None,
                expected_packets: 0,
                last_received_ms: None,
                last_timestamp: 0,
                arrival_variation: 0,
                last_latency: None,
                jitter: 0,
                bytes_in_last_sec: 0,
                last_report_ns: now_ns,
                last_throughput_ns: now_ns,
            }),
    {
        RtpReceiver {
            total_packets: 0,
            total_bytes: 0,
            extension_packets: 0,
            last_seq: None,
            highest_seq: None,
            expected_packets: 0,
            last_received_ms: None,
            last_timestamp: 0,
            arrival_variation: 0,
            last_latency: None,
            jitter: 0,
            bytes_in_last_sec: 0,
            last_report_ns: now_ns,
            last_throughput_ns: now_ns,
        }
    }

    /// Whether a packet can be counted and measured within 64 bits.
    pub fn can_receive(&self, packet: &Vec<u8>, received_ms: i64, offset: i64) -> (r: bool)
        ensures
            r == measures_fit(*self, packet@, received_ms, offset),
    {
        let n: usize = packet.len();
        if n <= HEADER_SIZE {
            return true;
        }
        if self.total_packets == u32::MAX || n as u64 > u64::MAX - self.total_bytes || n as u64
            > u64::MAX - self.bytes_in_last_sec {
            return false;
        }
        let seq: u16 = read_be(packet, 2, 2) as u16;
        match self.highest_seq {
            Some(h) => {
                let ahead: u32 = count_ahead(h, seq);
                if ahead < 0x8000 && ahead > u32::MAX - self.expected_packets {
                    return false;
                }
            },
            None => {},
        }
        if !(is_marked(packet[0]) && n >= HEADER_SIZE + EXTENSION_SIZE + 4) {
            return true;
        }
        let server_time: u64 = read_be(packet, 16, 8);
        let here: i128 = received_ms as i128 + offset as i128;
        let latency: i128 = here - to_signed(server_time) as i128;
        if self.extension_packets == u32::MAX || !in_i64(here) || !in_i64(latency) {
            return false;
        }
        match self.last_latency {
            Some(l) => {
                let change: i128 = latency - l as i128;
                in_i64(change) && change != i64::MIN as i128
            },
            None => true,
        }
    }

    /// Takes up what was received, and tells whether it was long enough to be a packet.
    pub fn receive(&mut self, packet: &Vec<u8>, received_ms: i64, offset: i64) -> (r: bool)
        requires
            measures_fit(*old(self), packet@, received_ms, offset),
        ensures
            r == is_packet(packet@),
            *final(self) == received(*old(self), packet@, received_ms, offset),
    {
        let n: usize = packet.len();
        if n <= HEADER_SIZE {
            return false;
        }
        self.total_packets = self.total_packets + 1;
        self.total_bytes = self.total_bytes + n as u64;
        self.bytes_in_last_sec = self.bytes_in_last_sec + n as u64;
        let seq: u64 = read_be(packet, 2, 2);
        if is_marked(packet[0]) && n >= HEADER_SIZE + EXTENSION_SIZE + 4 {
            self.extension_packets = self.extension_packets + 1;
            let server_time: u64 = read_be(packet, 16, 8);
            let latency: i64 = (received_ms + offset) - to_signed(server_time);
            self.jitter = match self.last_latency {
                Some(l) => {
                    let change: i64 = latency - l;
                    if change >= 0 {
                        change
                    } else {
                        -change
                    }
                },
                None => 0,
            };
            self.last_latency = Some(latency);
        }
        self.last_seq = Some(seq as u16);
        self.count_number(seq as u16);
        self.time_arrival(received_ms, read_be(packet, 4, 4) as u32);
        true
    }

    /// Counts the packets that the server numbered up to `seq`.
    fn count_number(&mut self, seq: u16)
        requires
            expected_after(old(self).highest_seq, old(self).expected_packets as int, seq)
                <= u32::MAX,
        ensures
            *final(self) == (RtpReceiver {
                highest_seq: Some(highest_after(old(self).highest_seq, seq)),
                expected_packets: expected_after(
                    old(self).highest_seq,
                    old(self).expected_packets as int,
                    seq,
                ) as u32,
                ..*old(self)
            }),
    {
        match self.highest_seq {
            Some(h) => {
                let ahead: u32 = count_ahead(h, seq);
                if ahead < 0x8000 {
                    self.expected_packets = self.expected_packets + ahead;
                    self.highest_seq = Some(seq);
                }
            },
            None => {
                self.expected_packets = 1;
                self.highest_seq = Some(seq);
            },
        }
    }

    /// Measures the time since the packet before against their timestamps.
    fn time_arrival(&mut self, received_ms: i64, timestamp: u32)
        ensures
            *final(self) == (RtpReceiver {
                last_received_ms: Some(received_ms),
                last_timestamp: timestamp,
                arrival_variation: variation_of(*old(self), received_ms, timestamp) as i128,
                ..*old(self)
            }),
    {
        self.arrival_variation = match self.last_received_ms {
            Some(last) => {
                let time: i128 = (received_ms as i128 - last as i128) * TIMESTAMP_STEPS_PER_MS;
                let d: i128 = time - step_between(self.last_timestamp, timestamp) as i128;
                if d >= 0 {
                    d
                } else {
                    -d
                }
            },
            None => 0,
        };
        self.last_received_ms = Some(received_ms);
        self.last_timestamp = timestamp;
    }

    /// What has to be reported at that time, where a report is due.
    pub fn qos_report(&self, now_ns: u64) -> (r: Option<QosReport>)
        ensures
            r == if elapsed(self.last_report_ns, now_ns) >= REPORT_INTERVAL_NS {
                Some(report_of(*self))
            } else {
                None
            },
    {
        if now_ns >= self.last_report_ns && now_ns - self.last_report_ns >= REPORT_INTERVAL_NS {
            Some(
                QosReport {
                    packets_received: self.total_packets,
                    packets_expected: self.expected_packets,
                    arrival_variation: self.arrival_variation,
                    jitter_ms: self.jitter,
                    latency_ms: match self.last_latency {
                        Some(l) => l,
                        None => 0,
                    },
                    total_bytes: self.total_bytes,
                },
            )
        } else {
            None
        }
    }

    /// Notes that a report was made at that time.
    pub fn reported(&mut self, now_ns: u64)
        ensures
            *final(self) == (RtpReceiver { last_report_ns: now_ns, ..*old(self) }),
    {
        self.last_report_ns = now_ns;
    }

    /// The bytes received since the last time that this gave a number, where a second has passed
    /// since.
    pub fn throughput(&mut self, now_ns: u64) -> (r: Option<u64>)
        ensures
            elapsed(old(self).last_throughput_ns, now_ns) >= REPORT_INTERVAL_NS ==> r == Some(
                old(self).bytes_in_last_sec,
            ) && *final(self) == (RtpReceiver {
                bytes_in_last_sec: 0,
                last_throughput_ns: now_ns,
                ..*old(self)
            }),
            elapsed(old(self).last_throughput_ns, now_ns) < REPORT_INTERVAL_NS ==> r is None
                && *final(self) == *old(self),
    {
        if now_ns >= self.last_throughput_ns && now_ns - self.last_throughput_ns
            >= REPORT_INTERVAL_NS {
            let bytes: u64 = self.bytes_in_last_sec;
            self.bytes_in_last_sec = 0;
            self.last_throughput_ns = now_ns;
            Some(bytes)
        } else {
            None
        }
    }
}

} // verus!
