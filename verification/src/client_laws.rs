//! What the client's measurements amount to.

use crate::api::JitterThresholds;
use crate::client::{
    adjust_delay, carries_time, check_times, client_id, double_offset, expected_after,
    get_jitter_thresholds, half, highest_after, initial_delay, is_packet, jitter_of, latency_of,
    local_port, measures_fit, received, round_trip, steps_ahead, threshold, times_fit,
    timestamp_step, variation_of, wanted_config, NtpState, QosReport, RtpReceiver,
};
use crate::config::ClientConfig;
use crate::rows::views;
use crate::rtp::{
    chunk, chunk_size, frame_packets, seq_after, sequence_of, server_time_of, timestamp_of,
    RtpExtension, EXTENSION_SIZE, FRAME_INTERVAL_MS, FRAME_LENGTH, HEADER_SIZE,
};
use crate::rtp_laws::{
    law_packets_are_well_formed, lemma_long_at, lemma_time_at, lemma_word_at, long_at, time_at,
    word_at,
};
use crate::text::{decimal, decimal_text, law_decimal_reads_back, parse_u32};
use crate::wire::{law_payload_layout, payload_bytes};
use vstd::prelude::*;

verus! {

/// A number that the environment gives is the threshold, whatever the server says.
pub proof fn law_environment_comes_first(n: u32, server: Option<u32>, otherwise: u32)
    ensures
        threshold(Some(decimal(n as nat)), server, otherwise) == n,
{
    law_decimal_reads_back(n);
}

/// Without a number of the environment, the server's threshold is followed; without either, the
/// default.
pub proof fn law_server_comes_second(n: u32, otherwise: u32)
    ensures
        threshold(None, Some(n), otherwise) == n,
        threshold(None, None, otherwise) == otherwise,
{
}

/// Where request and answer take equally long, the client learns exactly by how much the server's
/// clock is ahead, and how long both took together. `ahead` is the lead of the server's clock,
/// `way` the time of one way, `work` the time that the server took.
pub proof fn law_equal_ways_give_the_offset(t1: u64, ahead: int, way: nat, work: nat)
    requires
        0 <= t1 + way + ahead,
        t1 + way + ahead + work <= i64::MAX,
        t1 + 2 * way + work <= i64::MAX,
    ensures
        ({
            let t2 = (t1 + way + ahead) as u64;
            let t3 = (t1 + way + ahead + work) as u64;
            let t4 = (t1 + 2 * way + work) as u64;
            &&& round_trip(t1, t2, t3, t4) == 2 * way
            &&& half(double_offset(t1, t2, t3, t4)) == ahead
        }),
{
}

/// Where the two ways take differently long, the offset is wrong by no more than half of the
/// time that both took together, but for rounding.
pub proof fn law_offset_error_is_bounded(t1: u64, ahead: int, there: nat, back: nat, work: nat)
    requires
        0 <= t1 + there + ahead,
        t1 + there + ahead + work <= i64::MAX,
        t1 + there + work + back <= i64::MAX,
    ensures
        ({
            let t2 = (t1 + there + ahead) as u64;
            let t3 = (t1 + there + ahead + work) as u64;
            let t4 = (t1 + there + work + back) as u64;
            let rtt = round_trip(t1, t2, t3, t4);
            let error = half(double_offset(t1, t2, t3, t4)) - ahead;
            &&& rtt == there + back
            &&& -(rtt + 1) <= 2 * error <= rtt + 1
        }),
{
}

/// With the right offset, the latency of a packet is the time that it was on its way.
pub proof fn law_latency_is_time_on_the_way(
    packet: Seq<u8>,
    received_ms: i64,
    ahead: i64,
    way: nat,
)
    requires
        server_time_of(packet) <= i64::MAX,
        received_ms + ahead == server_time_of(packet) + way,
    ensures
        latency_of(packet, received_ms, ahead) == way,
{
}

/// The jitter is never negative, and is nothing between two packets that took equally long.
pub proof fn law_jitter_is_a_distance(latency: i64, last: i64)
    ensures
        jitter_of(latency as int, Some(last)) >= 0,
        jitter_of(latency as int, Some(last)) == jitter_of(last as int, Some(latency)),
        jitter_of(latency as int, Some(last)) == 0 <==> latency == last,
{
}

/// The number that is furthest ahead among those received.
pub open spec fn highest_of(numbers: Seq<u16>) -> Option<u16>
    decreases numbers.len(),
{
    if numbers.len() == 0 {
        None
    } else {
        Some(highest_after(highest_of(numbers.drop_last()), numbers.last()))
    }
}

/// How many packets are expected once those with the given numbers were received.
pub open spec fn expected_of(numbers: Seq<u16>) -> int
    decreases numbers.len(),
{
    if numbers.len() == 0 {
        0
    } else {
        let before = numbers.drop_last();
        expected_after(highest_of(before), expected_of(before), numbers.last())
    }
}

/// The greatest of some positions.
pub open spec fn furthest(positions: Seq<nat>) -> nat
    decreases positions.len(),
{
    if positions.len() == 0 {
        0
    } else if positions.last() >= furthest(positions.drop_last()) {
        positions.last()
    } else {
        furthest(positions.drop_last())
    }
}

/// Whether each position is less than half of all numbers away from the furthest before it.
pub open spec fn within_reach(positions: Seq<nat>) -> bool
    decreases positions.len(),
{
    positions.len() == 0 || {
        let before = furthest(positions.drop_last());
        &&& within_reach(positions.drop_last())
        &&& -0x8000 < positions.last() - before < 0x8000
    }
}

/// Of packets that the server numbered one after the other, starting from 0 again where the numbers
/// end, those from the first one received to the furthest are expected: whichever of them came, and
/// in whatever order, as long as none was half of all numbers away.
pub proof fn law_lost_packets_are_expected(first: u16, positions: Seq<nat>)
    requires
        positions.len() > 0,
        positions[0] == 0,
        within_reach(positions),
    ensures
        ({
            let numbers = Seq::new(positions.len(), |i: int| seq_after(first, positions[i]));
            &&& expected_of(numbers) == furthest(positions) + 1
            &&& highest_of(numbers) == Some(seq_after(first, furthest(positions)))
        }),
    decreases positions.len(),
{
    let numbers = Seq::new(positions.len(), |i: int| seq_after(first, positions[i]));
    let before = positions.drop_last();
    let known = Seq::new(before.len(), |i: int| seq_after(first, before[i]));
    assert(numbers.drop_last() =~= known);
    if before.len() > 0 {
        law_lost_packets_are_expected(first, before);
        let f = furthest(before);
        let p = positions.last();
        let h = seq_after(first, f);
        let q = seq_after(first, p);
        assert(q == numbers.last());
        if p >= f {
            assert(steps_ahead(h, q) == p - f);
        } else {
            assert(steps_ahead(h, q) == 0x1_0000 - (f - p));
        }
    } else {
        assert(positions.last() == 0);
        assert(furthest(before) == 0);
        assert(highest_of(known) is None);
    }
}

/// Where every packet from the first one on is received in turn, as many are expected as came.
pub proof fn law_nothing_lost(first: u16, n: nat)
    requires
        n > 0,
    ensures
        expected_of(Seq::new(n, |i: int| seq_after(first, i as nat))) == n,
{
    let positions = Seq::new(n, |i: int| i as nat);
    lemma_in_turn(n);
    law_lost_packets_are_expected(first, positions);
    assert(Seq::new(n, |i: int| seq_after(first, positions[i])) =~= Seq::new(
        n,
        |i: int| seq_after(first, i as nat),
    ));
}

proof fn lemma_in_turn(n: nat)
    ensures
        ({
            let positions = Seq::new(n, |i: int| i as nat);
            &&& within_reach(positions)
            &&& furthest(positions) == if n == 0 {
                0
            } else {
                n - 1
            }
        }),
    decreases n,
{
    if n > 0 {
        lemma_in_turn((n - 1) as nat);
        assert(Seq::new(n, |i: int| i as nat).drop_last() =~= Seq::new(
            (n - 1) as nat,
            |i: int| i as nat,
        ));
    }
}

/// A packet that comes as much later than the one before as the server made it later varies
/// nothing: frames that follow each other at their interval come so.
pub proof fn law_steady_packets_do_not_vary(s: RtpReceiver, received_ms: i64, frames: nat)
    requires
        s.last_received_ms matches Some(last) && received_ms == last + frames
            * FRAME_INTERVAL_MS,
        frames * FRAME_LENGTH < 0x8000_0000,
    ensures
        variation_of(
            s,
            received_ms,
            ((s.last_timestamp + frames * FRAME_LENGTH) % 0x1_0000_0000) as u32,
        ) == 0,
{
}

/// Every packet that the server makes of a frame is one to the client, which reads the number
/// that the server gave it.
pub proof fn law_server_packets_are_received(
    s: RtpReceiver,
    samples: Seq<i32>,
    seq: u16,
    timestamp: u32,
    extension: Option<RtpExtension>,
    k: int,
    received_ms: i64,
    offset: i64,
)
    requires
        0 <= k < frame_packets(payload_bytes(samples), seq, timestamp, extension).len(),
    ensures
        ({
            let packet = frame_packets(payload_bytes(samples), seq, timestamp, extension)[k];
            &&& is_packet(packet)
            &&& received(s, packet, received_ms, offset).last_seq == Some(
                seq_after(seq, k as nat),
            )
        }),
{
    law_packets_are_well_formed(payload_bytes(samples), seq, timestamp, extension, k);
}

/// The client reads the server's time from the first packet of a frame with an extension, and
/// from no other.
pub proof fn law_server_time_is_received(
    samples: Seq<i32>,
    seq: u16,
    timestamp: u32,
    extension: Option<RtpExtension>,
    k: int,
)
    requires
        0 <= k < frame_packets(payload_bytes(samples), seq, timestamp, extension).len(),
    ensures
        ({
            let packet = frame_packets(payload_bytes(samples), seq, timestamp, extension)[k];
            &&& carries_time(packet) == (extension is Some && k == 0)
            &&& carries_time(packet) ==> server_time_of(packet)
                == extension->Some_0.server_time_ms
        }),
{
    let payload = payload_bytes(samples);
    let packet = frame_packets(payload, seq, timestamp, extension)[k];
    law_packets_are_well_formed(payload, seq, timestamp, extension, k);
    law_payload_layout(samples);
    if extension is Some && k == 0 {
        assert(chunk_size(true) == 1372);
        let first = chunk(payload, chunk_size(true), 0);
        assert(0 * chunk_size(true) == 0);
        assert(first == packet.skip(HEADER_SIZE + EXTENSION_SIZE));
        assert(first.len() >= 4);
    }
}

/// Whether a packet bears the server's time: it is marked and long enough.
pub open spec fn bears_time(packet: Seq<u8>) -> bool {
    packet.len() >= 32 && (packet[0] / 16) % 2 == 1
}

/// The distance between two numbers.
pub open spec fn distance(a: int, b: int) -> int {
    if a <= b {
        b - a
    } else {
        a - b
    }
}

proof fn lemma_read_packet(packet: Seq<u8>)
    requires
        packet.len() > 12,
    ensures
        sequence_of(packet) == word_at(packet, 2),
        timestamp_of(packet) == long_at(packet, 4),
        packet.len() >= 32 ==> server_time_of(packet) == time_at(packet, 16),
        is_packet(packet),
        carries_time(packet) == bears_time(packet),
{
    lemma_word_at(packet, 2);
    lemma_long_at(packet, 4);
    if packet.len() >= 32 {
        lemma_time_at(packet, 16);
    }
}

/// What has no more than twelve bytes is no packet and changes nothing. A packet counts as one more, with
/// all its bytes, and its number is noted.
pub proof fn law_packets_are_counted(
    s: &mut RtpReceiver,
    packet: &Vec<u8>,
    received_ms: i64,
    offset: i64,
    r: bool,
)
    requires
        measures_fit(*old(s), packet@, received_ms, offset),
        call_ensures(RtpReceiver::receive, (s, packet, received_ms, offset), r),
    ensures
        r <==> packet@.len() > 12,
        !r ==> *final(s) == *old(s),
        r ==> {
            &&& final(s).total_packets == old(s).total_packets + 1
            &&& final(s).total_bytes == old(s).total_bytes + packet@.len()
            &&& final(s).bytes_in_last_sec == old(s).bytes_in_last_sec + packet@.len()
            &&& final(s).last_seq == Some(word_at(packet@, 2) as u16)
        },
        final(s).last_report_ns == old(s).last_report_ns,
        final(s).last_throughput_ns == old(s).last_throughput_ns,
{
    if packet@.len() > 12 {
        lemma_read_packet(packet@);
    }
}

/// The latency is the time at which a packet came, by the server's clock, less the time that it bears,
/// read as a signed number; the jitter is how much that differs from the latency before. A packet without the time leaves both
/// as they are.
pub proof fn law_latency_and_jitter_are_measured(
    s: &mut RtpReceiver,
    packet: &Vec<u8>,
    received_ms: i64,
    offset: i64,
    r: bool,
)
    requires
        measures_fit(*old(s), packet@, received_ms, offset),
        call_ensures(RtpReceiver::receive, (s, packet, received_ms, offset), r),
    ensures
        bears_time(packet@) ==> {
            let time = time_at(packet@, 16);
            let latency = received_ms + offset - if time <= i64::MAX {
                time
            } else {
                time - 0x1_0000_0000_0000_0000
            };
            &&& final(s).extension_packets == old(s).extension_packets + 1
            &&& final(s).last_latency matches Some(l) && l == latency
            &&& old(s).last_latency matches Some(before) ==> final(s).jitter == distance(
                before as int,
                latency,
            )
            &&& old(s).last_latency is None ==> final(s).jitter == 0
        },
        !bears_time(packet@) ==> {
            &&& final(s).extension_packets == old(s).extension_packets
            &&& final(s).last_latency == old(s).last_latency
            &&& final(s).jitter == old(s).jitter
        },
{
    if packet@.len() > 12 {
        lemma_read_packet(packet@);
    }
}

/// The first packet is the first that is expected. A later one with a number that is less than half of
/// all numbers ahead of the highest is the highest from then on, and all between are expected; any other
/// changes neither.
pub proof fn law_numbers_are_expected(
    s: &mut RtpReceiver,
    packet: &Vec<u8>,
    received_ms: i64,
    offset: i64,
    r: bool,
)
    requires
        measures_fit(*old(s), packet@, received_ms, offset),
        call_ensures(RtpReceiver::receive, (s, packet, received_ms, offset), r),
        packet@.len() > 12,
    ensures
        ({
            let seq = word_at(packet@, 2);
            &&& old(s).highest_seq is None ==> final(s).highest_seq == Some(seq as u16)
                && final(s).expected_packets == 1
            &&& old(s).highest_seq matches Some(h) ==> {
                let ahead = if seq >= h {
                    seq - h
                } else {
                    seq + 0x1_0000 - h
                };
                &&& ahead < 0x8000 ==> final(s).highest_seq == Some(seq as u16)
                    && final(s).expected_packets == old(s).expected_packets + ahead
                &&& ahead >= 0x8000 ==> final(s).highest_seq == old(s).highest_seq
                    && final(s).expected_packets == old(s).expected_packets
            }
        }),
{
    lemma_read_packet(packet@);
}

/// What varies is the time between two packets against the time between their timestamps, eight steps
/// to the millisecond. The first packet varies nothing.
pub proof fn law_arrival_is_measured(
    s: &mut RtpReceiver,
    packet: &Vec<u8>,
    received_ms: i64,
    offset: i64,
    r: bool,
    step: int,
)
    requires
        measures_fit(*old(s), packet@, received_ms, offset),
        call_ensures(RtpReceiver::receive, (s, packet, received_ms, offset), r),
        packet@.len() > 12,
        -0x8000_0000 <= step < 0x8000_0000,
        (old(s).last_timestamp + step) % 0x1_0000_0000 == long_at(packet@, 4),
    ensures
        old(s).last_received_ms is None ==> final(s).arrival_variation == 0,
        old(s).last_received_ms matches Some(last) ==> final(s).arrival_variation == distance(
            (received_ms - last) * 8,
            step,
        ),
        final(s).last_received_ms == Some(received_ms),
        final(s).last_timestamp == long_at(packet@, 4),
{
    lemma_read_packet(packet@);
    let from = old(s).last_timestamp;
    let to = long_at(packet@, 4) as u32;
    assert(timestamp_step(from, to) == step);
}

/// A report is due exactly if a second or more has passed since the last one. It tells how many packets
/// and bytes came, how many packets were expected, the last latency, or none where none was measured,
/// and what varied, each as it was measured.
pub proof fn law_report_tells_what_was_measured(
    s: &RtpReceiver,
    now_ns: u64,
    r: Option<QosReport>,
)
    requires
        call_ensures(RtpReceiver::qos_report, (s, now_ns), r),
    ensures
        r is Some <==> now_ns - s.last_report_ns >= 1_000_000_000,
        r matches Some(q) ==> {
            &&& q.packets_received == s.total_packets
            &&& q.packets_expected == s.expected_packets
            &&& q.arrival_variation == s.arrival_variation
            &&& q.jitter_ms == s.jitter
            &&& s.last_latency matches Some(l) ==> q.latency_ms == l
            &&& s.last_latency is None ==> q.latency_ms == 0
            &&& q.total_bytes == s.total_bytes
        },
{
}

/// After two packets that bear the server's time, a report that is due tells the latency of the second
/// and by how much it differs from that of the first, and counts both.
pub proof fn law_two_packets_are_reported(
    first: &mut RtpReceiver,
    p: &Vec<u8>,
    p_ms: i64,
    p_offset: i64,
    p_taken: bool,
    second: &mut RtpReceiver,
    q: &Vec<u8>,
    q_ms: i64,
    q_offset: i64,
    q_taken: bool,
    after: &RtpReceiver,
    now_ns: u64,
    report: Option<QosReport>,
)
    requires
        measures_fit(*old(first), p@, p_ms, p_offset),
        call_ensures(RtpReceiver::receive, (first, p, p_ms, p_offset), p_taken),
        *old(second) == *final(first),
        measures_fit(*old(second), q@, q_ms, q_offset),
        call_ensures(RtpReceiver::receive, (second, q, q_ms, q_offset), q_taken),
        *after == *final(second),
        call_ensures(RtpReceiver::qos_report, (after, now_ns), report),
        bears_time(p@),
        bears_time(q@),
        time_at(p@, 16) <= i64::MAX,
        time_at(q@, 16) <= i64::MAX,
        now_ns - old(first).last_report_ns >= 1_000_000_000,
    ensures
        ({
            let a = p_ms + p_offset - time_at(p@, 16);
            let b = q_ms + q_offset - time_at(q@, 16);
            &&& report matches Some(told)
            &&& told.latency_ms == b
            &&& told.jitter_ms == distance(a, b)
            &&& told.packets_received == old(first).total_packets + 2
            &&& told.total_bytes == old(first).total_bytes + p@.len() + q@.len()
        }),
{
    law_packets_are_counted(first, p, p_ms, p_offset, p_taken);
    law_packets_are_counted(second, q, q_ms, q_offset, q_taken);
    law_latency_and_jitter_are_measured(first, p, p_ms, p_offset, p_taken);
    law_latency_and_jitter_are_measured(second, q, q_ms, q_offset, q_taken);
}

/// What the client has measured after a run of packets, each with the time at which it came.
pub open spec fn after_packets(
    s: RtpReceiver,
    packets: Seq<(Seq<u8>, i64)>,
    offset: i64,
) -> RtpReceiver
    decreases packets.len(),
{
    if packets.len() == 0 {
        s
    } else {
        received(
            after_packets(s, packets.drop_last(), offset),
            packets.last().0,
            packets.last().1,
            offset,
        )
    }
}

/// Whether every packet of a run is one, and can be counted and measured.
pub open spec fn run_fits(s: RtpReceiver, packets: Seq<(Seq<u8>, i64)>, offset: i64) -> bool
    decreases packets.len(),
{
    packets.len() == 0 || {
        &&& run_fits(s, packets.drop_last(), offset)
        &&& packets.last().0.len() > 12
        &&& measures_fit(
            after_packets(s, packets.drop_last(), offset),
            packets.last().0,
            packets.last().1,
            offset,
        )
    }
}

/// A client that has received nothing before has, after a run of packets, received as many as came, and
/// expects those from the first one received to the one that is furthest ahead: whichever the server
/// sent, and in whatever order they came, as long as none was half of all numbers away.
pub proof fn law_run_of_packets_is_counted(
    start_ns: u64,
    s: RtpReceiver,
    packets: Seq<(Seq<u8>, i64)>,
    offset: i64,
    first: u16,
    positions: Seq<nat>,
    now_ns: u64,
    after: &RtpReceiver,
    report: Option<QosReport>,
)
    requires
        call_ensures(RtpReceiver::new, (start_ns,), s),
        run_fits(s, packets, offset),
        positions.len() == packets.len(),
        positions.len() > 0,
        positions[0] == 0,
        within_reach(positions),
        forall|i: int|
            0 <= i < packets.len() ==> word_at((#[trigger] packets[i]).0, 2) == (first
                + positions[i]) % 0x1_0000,
        *after == after_packets(s, packets, offset),
        call_ensures(RtpReceiver::qos_report, (after, now_ns), report),
    ensures
        report is Some <==> now_ns - start_ns >= 1_000_000_000,
        report matches Some(q) ==> q.packets_received == packets.len() && q.packets_expected
            == furthest(positions) + 1,
{
    let numbers = Seq::new(packets.len(), |i: int| word_at(packets[i].0, 2) as u16);
    lemma_run(s, packets, offset);
    law_lost_packets_are_expected(first, positions);
    assert forall|i: int| 0 <= i < packets.len() implies #[trigger] numbers[i] == seq_after(
        first,
        positions[i],
    ) by {
        assert(word_at(packets[i].0, 2) == (first + positions[i]) % 0x1_0000);
    }
    assert(numbers =~= Seq::new(positions.len(), |i: int| seq_after(first, positions[i])));
}

proof fn lemma_run(s: RtpReceiver, packets: Seq<(Seq<u8>, i64)>, offset: i64)
    requires
        run_fits(s, packets, offset),
        s.total_packets == 0,
        s.highest_seq is None,
        s.expected_packets == 0,
    ensures
        ({
            let numbers = Seq::new(packets.len(), |i: int| word_at(packets[i].0, 2) as u16);
            let after = after_packets(s, packets, offset);
            &&& after.total_packets == packets.len()
            &&& after.highest_seq == highest_of(numbers)
            &&& after.expected_packets == expected_of(numbers)
            &&& after.last_report_ns == s.last_report_ns
        }),
    decreases packets.len(),
{
    let numbers = Seq::new(packets.len(), |i: int| word_at(packets[i].0, 2) as u16);
    if packets.len() > 0 {
        let init = packets.drop_last();
        let before = Seq::new(init.len(), |i: int| word_at(init[i].0, 2) as u16);
        lemma_run(s, init, offset);
        lemma_read_packet(packets.last().0);
        assert(numbers.drop_last() =~= before);
        assert(numbers.last() == word_at(packets.last().0, 2) as u16);
        assert(expected_of(numbers) >= 0) by {
            assert(expected_of(before) >= 0);
        }
    }
}

/// Ordinary packets can be counted and measured: only counters at their ends, and times that are far
/// beyond all that clocks show, cannot.
pub proof fn law_ordinary_packets_can_be_received(
    s: &RtpReceiver,
    packet: &Vec<u8>,
    received_ms: i64,
    offset: i64,
    r: bool,
)
    requires
        call_ensures(RtpReceiver::can_receive, (s, packet, received_ms, offset), r),
        s.total_packets < u32::MAX,
        s.extension_packets < u32::MAX,
        s.expected_packets < 0xffff_0000,
        s.total_bytes + packet@.len() <= u64::MAX,
        s.bytes_in_last_sec + packet@.len() <= u64::MAX,
        -0x1000_0000_0000_0000 <= received_ms <= 0x1000_0000_0000_0000,
        -0x1000_0000_0000_0000 <= offset <= 0x1000_0000_0000_0000,
        bears_time(packet@) ==> time_at(packet@, 16) <= 0x1000_0000_0000_0000,
        s.last_latency matches Some(l) ==> -0x3000_0000_0000_0000 <= l <= 0x3000_0000_0000_0000,
    ensures
        r,
{
    if packet@.len() > 12 {
        lemma_read_packet(packet@);
    }
}

/// After a report the next one is due a second later, and nothing that was measured is lost.
pub proof fn law_reports_come_every_second(
    s: &mut RtpReceiver,
    now_ns: u64,
    after: &RtpReceiver,
    later_ns: u64,
    r: Option<QosReport>,
)
    requires
        call_ensures(RtpReceiver::reported, (s, now_ns), ()),
        *after == *final(s),
        call_ensures(RtpReceiver::qos_report, (after, later_ns), r),
    ensures
        r is Some <==> later_ns - now_ns >= 1_000_000_000,
        *final(s) == (RtpReceiver { last_report_ns: now_ns, ..*old(s) }),
{
}

/// Every second the bytes that came since are told, each once: what is told and what is left to be told
/// make up what there was.
pub proof fn law_bytes_are_told_once(s: &mut RtpReceiver, now_ns: u64, r: Option<u64>)
    requires
        call_ensures(RtpReceiver::throughput, (s, now_ns), r),
    ensures
        r is Some <==> now_ns - old(s).last_throughput_ns >= 1_000_000_000,
        r matches Some(n) ==> n + final(s).bytes_in_last_sec == old(s).bytes_in_last_sec
            && final(s).bytes_in_last_sec == 0 && final(s).last_throughput_ns == now_ns,
        r is None ==> *final(s) == *old(s),
        final(s).total_bytes == old(s).total_bytes,
        final(s).total_packets == old(s).total_packets,
        final(s).expected_packets == old(s).expected_packets,
        final(s).last_latency == old(s).last_latency,
        final(s).jitter == old(s).jitter,
        final(s).last_report_ns == old(s).last_report_ns,
{
}

/// A client that has received nothing tells of nothing.
pub proof fn law_client_starts_from_nothing(now_ns: u64, s: RtpReceiver)
    requires
        call_ensures(RtpReceiver::new, (now_ns,), s),
    ensures
        s.total_packets == 0 && s.total_bytes == 0 && s.extension_packets == 0,
        s.expected_packets == 0 && s.bytes_in_last_sec == 0,
        s.last_seq is None && s.highest_seq is None && s.last_latency is None,
        s.last_received_ms is None && s.jitter == 0 && s.arrival_variation == 0,
        s.last_report_ns == now_ns && s.last_throughput_ns == now_ns,
{
}

/// What the client learns from the four times: how long request and answer were on their way, and half of
/// what the server's clock was ahead on the two ways together, rounded toward zero.
pub proof fn law_four_times_give_the_clock(t1: u64, t2: u64, t3: u64, t4: u64, r: NtpState)
    requires
        times_fit(t1, t2, t3, t4),
        call_ensures(NtpState::from_times, (t1, t2, t3, t4), r),
    ensures
        t4 - t1 >= t3 - t2 ==> r.rtt == (t4 - t1) - (t3 - t2),
        t4 - t1 < t3 - t2 ==> r.rtt == 0,
        t1 <= i64::MAX && t2 <= i64::MAX && t3 <= i64::MAX && t4 <= i64::MAX ==> {
            let ahead = (t2 - t1) + (t3 - t4);
            &&& ahead >= 0 ==> 0 <= 2 * r.offset <= ahead < 2 * r.offset + 2
            &&& ahead < 0 ==> 2 * r.offset - 2 < ahead <= 2 * r.offset <= 0
        },
{
}

/// Four times of which the client's two and the server's two rise can be made sense of, as far as clocks
/// go, and no others.
pub proof fn law_rising_times_fit(t1: u64, t2: u64, t3: u64, t4: u64, r: bool, start: NtpState)
    requires
        call_ensures(check_times, (t1, t2, t3, t4), r),
        call_ensures(NtpState::new, (), start),
        t1 <= 0x1000_0000_0000_0000,
        t2 <= 0x1000_0000_0000_0000,
        t3 <= 0x1000_0000_0000_0000,
        t4 <= 0x1000_0000_0000_0000,
    ensures
        r <==> t1 <= t4 && t2 <= t3,
        start.offset == 0 && start.rtt == 0,
{
}

/// A threshold is the number that the environment gives; where it gives none, that of the server; and
/// without either 100 for the one and 200 for the other.
pub proof fn law_thresholds_are_chosen(
    interpolate: Option<&str>,
    drop: Option<&str>,
    server: Option<JitterThresholds>,
    r: JitterThresholds,
    a: Option<u32>,
    b: Option<u32>,
)
    requires
        call_ensures(get_jitter_thresholds, (interpolate, drop, server), r),
        interpolate matches Some(s) ==> call_ensures(parse_u32, (s,), a),
        interpolate is None ==> a is None,
        drop matches Some(s) ==> call_ensures(parse_u32, (s,), b),
        drop is None ==> b is None,
    ensures
        a matches Some(n) ==> r.interpolate == n,
        b matches Some(n) ==> r.drop == n,
        a is None ==> (server matches Some(t) ==> r.interpolate == t.interpolate),
        b is None ==> (server matches Some(t) ==> r.drop == t.drop),
        a is None && server is None ==> r.interpolate == 100,
        b is None && server is None ==> r.drop == 200,
{
}

/// The port and the delay are those that the environment gives; where it gives none, or none that can be
/// a port, they are 5004 and 0.
pub proof fn law_port_and_delay_are_chosen(
    setting: Option<&str>,
    port: u16,
    delay: u64,
    n: Option<u32>,
)
    requires
        call_ensures(local_port, (setting,), port),
        call_ensures(initial_delay, (setting,), delay),
        setting matches Some(s) ==> call_ensures(parse_u32, (s,), n),
        setting is None ==> n is None,
    ensures
        port == match n {
            Some(x) => if x < 0x1_0000 {
                x as int
            } else {
                5004
            },
            None => 5004,
        },
        delay == match n {
            Some(x) => x as int,
            None => 0,
        },
{
}

/// The key `+` makes the delay ten milliseconds longer, `-` as much shorter, but not below none; the one
/// undoes the other, and other keys do nothing.
pub proof fn law_keys_change_the_delay(delay_ms: u64, key: u8, r: u64, back: u64)
    requires
        delay_ms <= u64::MAX - 10,
        call_ensures(adjust_delay, (delay_ms, key), r),
        key == 43 ==> call_ensures(adjust_delay, (r, 45u8), back),
    ensures
        key == 43 ==> r == delay_ms + 10 && back == delay_ms,
        key == 45 ==> r + 10 == delay_ms || (r == 0 && delay_ms < 10),
        key != 43 && key != 45 ==> r == delay_ms,
{
}

/// The client names itself by its port.
pub proof fn law_client_names_itself(port: u16, r: String, number: String)
    requires
        call_ensures(client_id, (port,), r),
        call_ensures(decimal_text, (port as u64,), number),
    ensures
        r@ == "test-client:"@ + number@,
{
}

/// The client asks for the channels 1 to 32, without compression, at a rate of 48000.
pub proof fn law_client_asks_for_all_channels(r: ClientConfig, i: int)
    requires
        call_ensures(wanted_config, (), r),
        0 <= i < 32,
    ensures
        r.channels matches Some(list) && list@.len() == 32 && list@[i].id == i + 1,
        r.sample_rate == Some(48000u32),
        r.compression matches Some(c) && c@ == "none"@,
{
    match r.channels {
        Some(list) => {
            assert(views(list@).len() == list@.len());
            assert(views(list@)[i] == list@[i]@);
        },
        None => {},
    }
}

} // verus!
