//! What holds of the packets that a client is sent.

use crate::audio::{by_channel, channel_numbers, frame_fits, law_channel_numbers, sample_at};
use crate::clock::server_time_ms;
use crate::config::USB_CHANNELS;
use crate::rows::views;
use crate::rtp::{
    body_of, build_rtp_header, chunk, chunk_count, chunk_size, extension_bytes, frame_packet, frame_packets,
    is_time_sync, map_channels, mapped_block, mapped_frame, marks_extension, packetize, rtp_header, seq_after, sequence_of,
    server_time_of, source_of, timestamp_of, RtpExtension, EXTENSION_INTERVAL, EXTENSION_SIZE,
    FRAME_LENGTH, HEADER_SIZE, MTU, RTP_PAYLOAD_TYPE, RTP_SSRC, RTP_VERSION,
};
use crate::stream::{after_frame, extension_due, stream_payload, RtpStream};
use crate::tables::{ChannelMapping, ChannelMappingView};
use crate::wire::{
    be_bytes, be_value, encode_samples, from_twos_complement, law_be_reads_back, law_payload_layout,
    law_sample_reads_back, le_value, lemma_be_len, lemma_pow256_values, payload_bytes, pow256,
    sample_bytes,
};
use vstd::arithmetic::div_mod::lemma_fundamental_div_mod;
use vstd::prelude::*;

verus! {

proof fn lemma_header_len(seq: u16, timestamp: u32, ssrc: u32, marked: bool)
    ensures
        rtp_header(seq, timestamp, ssrc, marked).len() == HEADER_SIZE,
{
    lemma_be_len(seq as nat, 2);
    lemma_be_len(timestamp as nat, 4);
    lemma_be_len(ssrc as nat, 4);
}

proof fn lemma_extension_len(e: RtpExtension)
    ensures
        extension_bytes(e).len() == EXTENSION_SIZE,
{
    lemma_be_len(e.profile as nat, 2);
    lemma_be_len(e.length as nat, 2);
    lemma_be_len(e.server_time_ms as nat, 8);
}

/// What was written into a header is what is read from the packet.
pub proof fn law_header_reads_back(
    seq: u16,
    timestamp: u32,
    ssrc: u32,
    marked: bool,
    rest: Seq<u8>,
)
    ensures
        ({
            let packet = rtp_header(seq, timestamp, ssrc, marked) + rest;
            &&& packet.len() == HEADER_SIZE + rest.len()
            &&& packet[0] / 64 == RTP_VERSION
            &&& packet[1] == RTP_PAYLOAD_TYPE
            &&& marks_extension(packet) == marked
            &&& sequence_of(packet) == seq
            &&& timestamp_of(packet) == timestamp
            &&& source_of(packet) == ssrc
        }),
{
    let packet = rtp_header(seq, timestamp, ssrc, marked) + rest;
    lemma_be_len(seq as nat, 2);
    lemma_be_len(timestamp as nat, 4);
    lemma_be_len(ssrc as nat, 4);
    lemma_pow256_values();
    law_be_reads_back(seq as nat, 2);
    law_be_reads_back(timestamp as nat, 4);
    law_be_reads_back(ssrc as nat, 4);
    assert(packet.subrange(2, 4) =~= be_bytes(seq as nat, 2));
    assert(packet.subrange(4, 8) =~= be_bytes(timestamp as nat, 4));
    assert(packet.subrange(8, 12) =~= be_bytes(ssrc as nat, 4));
}

/// The extension that was written is what is read from the packet, the server's time above all;
/// the audio follows it.
pub proof fn law_extension_reads_back(
    seq: u16,
    timestamp: u32,
    ssrc: u32,
    e: RtpExtension,
    audio: Seq<u8>,
)
    ensures
        ({
            let packet = rtp_header(seq, timestamp, ssrc, true) + extension_bytes(e) + audio;
            &&& marks_extension(packet)
            &&& be_value(packet.subrange(12, 14)) == e.profile
            &&& be_value(packet.subrange(14, 16)) == e.length
            &&& server_time_of(packet) == e.server_time_ms
            &&& packet[24] == e.event_flags
            &&& packet.subrange(25, 28) == e.reserved@
            &&& body_of(packet) == audio
        }),
{
    let header = rtp_header(seq, timestamp, ssrc, true);
    let packet = header + extension_bytes(e) + audio;
    lemma_header_len(seq, timestamp, ssrc, true);
    lemma_extension_len(e);
    lemma_be_len(e.profile as nat, 2);
    lemma_be_len(e.length as nat, 2);
    lemma_be_len(e.server_time_ms as nat, 8);
    lemma_pow256_values();
    law_be_reads_back(e.profile as nat, 2);
    law_be_reads_back(e.length as nat, 2);
    law_be_reads_back(e.server_time_ms as nat, 8);
    assert(packet.subrange(12, 14) =~= be_bytes(e.profile as nat, 2));
    assert(packet.subrange(14, 16) =~= be_bytes(e.length as nat, 2));
    assert(packet.subrange(16, 24) =~= be_bytes(e.server_time_ms as nat, 8));
    assert(packet.subrange(25, 28) =~= e.reserved@);
    assert(packet.skip(28) =~= audio);
}

proof fn lemma_chunk_bounds(len: nat, size: nat, k: nat)
    requires
        size > 0,
        k < chunk_count(len, size),
    ensures
        k * size < len,
        k + 1 < chunk_count(len, size) ==> (k + 1) * size < len,
        k + 1 == chunk_count(len, size) ==> len <= (k + 1) * size,
{
    let n = len + size - 1;
    lemma_fundamental_div_mod(n, size as int);
    let c = chunk_count(len, size);
    assert(n == size * (n / size as int) + n % size as int);
    assert(size * c == c * size) by (nonlinear_arith);
    assert((k + 1) * size == k * size + size) by (nonlinear_arith);
    assert((k + 1) * size <= c * size) by (nonlinear_arith)
        requires
            k + 1 <= c,
    ;
    if k + 1 < c {
        assert((k + 2) * size == (k + 1) * size + size) by (nonlinear_arith);
        assert((k + 2) * size <= c * size) by (nonlinear_arith)
            requires
                k + 2 <= c,
        ;
    }
}

/// Every packet of a frame carries at least one byte of audio and no more bytes than the network
/// takes, the number that is its turn, the frame's timestamp and the source; and it is marked as
/// one with an extension exactly if it has the extension: the first one of a frame with the time.
pub proof fn law_packets_are_well_formed(
    payload: Seq<u8>,
    seq: u16,
    timestamp: u32,
    extension: Option<RtpExtension>,
    k: int,
)
    requires
        0 <= k < frame_packets(payload, seq, timestamp, extension).len(),
    ensures
        ({
            let packet = frame_packets(payload, seq, timestamp, extension)[k];
            &&& HEADER_SIZE < packet.len() <= MTU
            &&& sequence_of(packet) == seq_after(seq, k as nat)
            &&& timestamp_of(packet) == timestamp
            &&& source_of(packet) == RTP_SSRC
            &&& marks_extension(packet) == (extension is Some && k == 0)
            &&& marks_extension(packet) ==> packet.len() > HEADER_SIZE + EXTENSION_SIZE
                && server_time_of(packet) == extension->Some_0.server_time_ms
            &&& body_of(packet) == chunk(payload, chunk_size(extension is Some), k as nat)
        }),
{
    let size = chunk_size(extension is Some);
    let part = chunk(payload, size, k as nat);
    let marked = extension is Some && k == 0;
    let header = rtp_header(seq_after(seq, k as nat), timestamp, RTP_SSRC, marked);
    let packet = frame_packet(payload, seq, timestamp, extension, k as nat);
    lemma_chunk_bounds(payload.len(), size, k as nat);
    lemma_header_len(seq_after(seq, k as nat), timestamp, RTP_SSRC, marked);
    assert(0 < part.len() <= size);
    if marked {
        let e = extension->Some_0;
        lemma_extension_len(e);
        assert(packet =~= header + (extension_bytes(e) + part));
        law_header_reads_back(
            seq_after(seq, k as nat),
            timestamp,
            RTP_SSRC,
            marked,
            extension_bytes(e) + part,
        );
        law_extension_reads_back(seq_after(seq, k as nat), timestamp, RTP_SSRC, e, part);
    } else {
        assert(packet =~= header + part);
        law_header_reads_back(seq_after(seq, k as nat), timestamp, RTP_SSRC, marked, part);
        assert(packet.skip(HEADER_SIZE as int) =~= part);
    }
}

/// The audio in a row of packets.
pub open spec fn audio_of(packets: Seq<Seq<u8>>) -> Seq<u8>
    decreases packets.len(),
{
    if packets.len() == 0 {
        Seq::empty()
    } else {
        audio_of(packets.drop_last()) + body_of(packets.last())
    }
}

proof fn lemma_audio_of_first(
    payload: Seq<u8>,
    seq: u16,
    timestamp: u32,
    extension: Option<RtpExtension>,
    n: nat,
)
    requires
        n <= frame_packets(payload, seq, timestamp, extension).len(),
    ensures
        ({
            let size = chunk_size(extension is Some);
            audio_of(frame_packets(payload, seq, timestamp, extension).take(n as int))
                == payload.take(
                if n * size <= payload.len() {
                    (n * size) as int
                } else {
                    payload.len() as int
                },
            )
        }),
    decreases n,
{
    let size = chunk_size(extension is Some);
    let packets = frame_packets(payload, seq, timestamp, extension);
    if n == 0 {
        assert(packets.take(0) =~= Seq::empty());
        assert(0 * size == 0);
        assert(payload.take(0) =~= Seq::empty());
    } else {
        let k = (n - 1) as nat;
        lemma_audio_of_first(payload, seq, timestamp, extension, k);
        lemma_chunk_bounds(payload.len(), size, k);
        law_packets_are_well_formed(payload, seq, timestamp, extension, k as int);
        assert(packets.take(n as int).drop_last() =~= packets.take(k as int));
        assert(packets.take(n as int).last() == packets[k as int]);
        assert((k + 1) * size == k * size + size) by (nonlinear_arith);
        let end = if n * size <= payload.len() {
            (n * size) as int
        } else {
            payload.len() as int
        };
        assert(payload.take((k * size) as int) + chunk(payload, size, k) =~= payload.take(end));
    }
}

/// The packets of a frame carry its audio: all of it, in order, and nothing else.
pub proof fn law_packets_carry_the_audio(
    payload: Seq<u8>,
    seq: u16,
    timestamp: u32,
    extension: Option<RtpExtension>,
)
    ensures
        audio_of(frame_packets(payload, seq, timestamp, extension)) == payload,
{
    let size = chunk_size(extension is Some);
    let packets = frame_packets(payload, seq, timestamp, extension);
    let n = packets.len();
    lemma_audio_of_first(payload, seq, timestamp, extension, n);
    assert(packets.take(n as int) =~= packets);
    if n > 0 {
        lemma_chunk_bounds(payload.len(), size, (n - 1) as nat);
    } else {
        lemma_fundamental_div_mod(payload.len() + size - 1, size as int);
        assert(size * 0 == 0);
    }
    assert(payload.take(payload.len() as int) =~= payload);
    if n * size <= payload.len() {
        assert(n * size == payload.len()) by {
            if n == 0 {
                assert(0 * size == 0);
            }
        }
    }
}

/// The packets of a stream are numbered without a gap from frame to frame, up to the wrap-around
/// at 65536.
pub proof fn law_numbers_go_on(s: RtpStream, count: nat, k: nat)
    ensures
        seq_after(after_frame(s, count).seq, k) == seq_after(s.seq, count + k),
        seq_after(s.seq, 0) == s.seq,
{
}

/// The stream after `n` frames, `counts[i]` being the packets of frame `i`.
pub open spec fn after_frames(s: RtpStream, counts: Seq<nat>) -> RtpStream
    decreases counts.len(),
{
    if counts.len() == 0 {
        s
    } else {
        after_frame(after_frames(s, counts.drop_last()), counts.last())
    }
}

/// The packets in a list of frames.
pub open spec fn total(counts: Seq<nat>) -> nat
    decreases counts.len(),
{
    if counts.len() == 0 {
        0
    } else {
        total(counts.drop_last()) + counts.last()
    }
}

/// From frame to frame the timestamps go on by the length of a frame, and the sequence numbers by
/// the number of packets, both from 0 again where they end.
pub proof fn law_stream_goes_on(s: RtpStream, counts: Seq<nat>)
    ensures
        after_frames(s, counts).timestamp == (s.timestamp + FRAME_LENGTH * counts.len())
            % 0x1_0000_0000,
        after_frames(s, counts).seq == seq_after(s.seq, total(counts)),
        after_frames(s, counts).channels == s.channels,
    decreases counts.len(),
{
    if counts.len() > 0 {
        law_stream_goes_on(s, counts.drop_last());
    }
}

/// In a stream from its start on, the frames with the time are every 250th one, beginning with
/// the first.
pub proof fn law_time_is_sent_regularly(s: RtpStream, counts: Seq<nat>)
    requires
        s.extension_counter == 0,
        counts.len() <= u32::MAX,
    ensures
        after_frames(s, counts).extension_counter == counts.len(),
        extension_due(after_frames(s, counts)) == (counts.len() % EXTENSION_INTERVAL as nat == 0),
    decreases counts.len(),
{
    if counts.len() > 0 {
        law_time_is_sent_regularly(s, counts.drop_last());
    }
}

proof fn lemma_mapped_layout(
    frame: Seq<i32>,
    mappings: Seq<ChannelMappingView>,
    frames: nat,
    channels: nat,
    i: nat,
)
    requires
        i < channels,
    ensures
        mapped_frame(frame, mappings, frames, channels).len() == channels * frames,
        mapped_frame(frame, mappings, frames, channels).subrange(
            (i * frames) as int,
            (i * frames + frames) as int,
        ) == mapped_block(frame, mappings, frames, i as int),
    decreases channels,
{
    let last = (channels - 1) as nat;
    let init = mapped_frame(frame, mappings, frames, last);
    let block = mapped_block(frame, mappings, frames, last as int);
    let whole = mapped_frame(frame, mappings, frames, channels);
    lemma_block_len(frame, mappings, frames, last as int);
    assert(channels * frames == last * frames + frames) by (nonlinear_arith)
        requires
            channels == last + 1,
    ;
    if last > 0 {
        lemma_mapped_layout(
            frame,
            mappings,
            frames,
            last,
            if i < last {
                i
            } else {
                0
            },
        );
    } else {
        assert(0 * frames == 0);
    }
    if i < last {
        assert(i * frames + frames <= last * frames) by (nonlinear_arith)
            requires
                i + 1 <= last,
        ;
        assert(whole.subrange((i * frames) as int, (i * frames + frames) as int)
            =~= init.subrange((i * frames) as int, (i * frames + frames) as int));
    } else {
        assert(whole.subrange((i * frames) as int, (i * frames + frames) as int) =~= block);
    }
}

proof fn lemma_block_len(
    frame: Seq<i32>,
    mappings: Seq<ChannelMappingView>,
    frames: nat,
    i: int,
)
    ensures
        mapped_block(frame, mappings, frames, i).len() == frames,
{
    let p = mappings[i].physical_channel as nat;
    if p >= 1 {
        assert(p * frames == (p - 1) * frames + frames) by (nonlinear_arith);
        assert(0 <= (p - 1) * frames) by (nonlinear_arith)
            requires
                p >= 1,
        ;
    }
}

/// A client hears, as its channel `i`, the physical channel that is mapped there: sample `f` of
/// that channel stands in the audio of the frame at its place, four bytes long.
pub proof fn law_mapped_channel_is_heard(
    captured: Seq<i32>,
    mappings: Seq<ChannelMappingView>,
    channels: nat,
    i: nat,
    f: nat,
)
    requires
        i < channels,
        i < mappings.len(),
        mappings[i as int].enabled,
        1 <= mappings[i as int].physical_channel <= USB_CHANNELS,
        captured.len() == USB_CHANNELS * FRAME_LENGTH,
        f < FRAME_LENGTH,
    ensures
        ({
            let at = 4 * (i * FRAME_LENGTH + f);
            let bytes = stream_payload(captured, mappings, channels).subrange(at, at + 4);
            let c = mappings[i as int].physical_channel - 1;
            from_twos_complement(le_value(bytes)) == captured[f * USB_CHANNELS + c]
        }),
{
    let frames = FRAME_LENGTH as nat;
    let grouped = by_channel(captured, USB_CHANNELS as nat, frames);
    let mapped = mapped_frame(grouped, mappings, frames, channels);
    let p = mappings[i as int].physical_channel as nat;
    let c = (p - 1) as nat;
    lemma_mapped_layout(grouped, mappings, frames, channels, i);
    assert(p * frames <= USB_CHANNELS * frames) by (nonlinear_arith)
        requires
            p <= USB_CHANNELS,
    ;
    assert(p * frames == c * frames + frames) by (nonlinear_arith)
        requires
            p == c + 1,
    ;
    let block = mapped_block(grouped, mappings, frames, i as int);
    assert(block == grouped.subrange((c * frames) as int, (p * frames) as int));
    assert(block[f as int] == grouped[(c * frames + f) as int]);
    crate::audio::lemma_position(frames, c, f);
    assert(i * frames + frames <= channels * frames) by (nonlinear_arith)
        requires
            i + 1 <= channels,
    ;
    let k = (i * frames + f) as int;
    assert(mapped.subrange((i * frames) as int, (i * frames + frames) as int)[f as int]
        == mapped[k]);
    assert(mapped[k] == captured[(f * USB_CHANNELS + c) as int]);
    law_payload_layout(mapped);
    law_sample_reads_back(mapped[k]);
    assert(payload_bytes(mapped).subrange(4 * k, 4 * k + 4) == sample_bytes(mapped[k]));
}

/// In test mode, where every sample is its channel's number, all that a client hears as its
/// channel `i` is the number of the physical channel that is mapped there, counted from 0.
pub proof fn law_test_mode_tells_channels_apart(
    mappings: Seq<ChannelMappingView>,
    channels: nat,
    i: nat,
    f: nat,
)
    requires
        i < channels,
        i < mappings.len(),
        mappings[i as int].enabled,
        1 <= mappings[i as int].physical_channel <= USB_CHANNELS,
        f < FRAME_LENGTH,
    ensures
        ({
            let captured = channel_numbers(USB_CHANNELS as nat, FRAME_LENGTH as nat);
            let at = 4 * (i * FRAME_LENGTH + f);
            let bytes = stream_payload(captured, mappings, channels).subrange(at, at + 4);
            from_twos_complement(le_value(bytes)) == mappings[i as int].physical_channel - 1
        }),
{
    let captured = channel_numbers(USB_CHANNELS as nat, FRAME_LENGTH as nat);
    let c = (mappings[i as int].physical_channel - 1) as nat;
    law_mapped_channel_is_heard(captured, mappings, channels, i, f);
    law_channel_numbers(USB_CHANNELS as nat, FRAME_LENGTH as nat, c, f);
    assert((USB_CHANNELS as nat) * (FRAME_LENGTH as nat) == 32nat * 160nat);
    assert(captured.len() == 5120);
    assert(f * USB_CHANNELS == f * 32);
    assert(f * USB_CHANNELS + c < captured.len());
    assert(sample_at(captured, USB_CHANNELS as nat, f, c) == captured[f * USB_CHANNELS + c]);
}

/// The number in two bytes, highest first.
pub open spec fn word_at(bytes: Seq<u8>, at: int) -> int {
    bytes[at] * 256 + bytes[at + 1]
}

/// The number in four bytes, highest first.
pub open spec fn long_at(bytes: Seq<u8>, at: int) -> int {
    word_at(bytes, at) * 0x1_0000 + word_at(bytes, at + 2)
}

/// The number in eight bytes, highest first.
pub open spec fn time_at(bytes: Seq<u8>, at: int) -> int {
    long_at(bytes, at) * 0x1_0000_0000 + long_at(bytes, at + 4)
}

pub proof fn lemma_word_at(bytes: Seq<u8>, at: int)
    requires
        0 <= at <= bytes.len() - 2,
    ensures
        be_value(bytes.subrange(at, at + 2)) == word_at(bytes, at),
{
    reveal_with_fuel(be_value, 3);
    let s = bytes.subrange(at, at + 2);
    assert(s.drop_last() =~= bytes.subrange(at, at + 1));
    assert(s.drop_last().drop_last() =~= Seq::empty());
}

proof fn lemma_be_value_add(a: Seq<u8>, b: Seq<u8>)
    ensures
        be_value(a + b) == be_value(a) * pow256(b.len()) + be_value(b),
    decreases b.len(),
{
    if b.len() == 0 {
        assert(a + b =~= a);
        assert(be_value(a) * pow256(0) == be_value(a)) by (nonlinear_arith)
            requires
                pow256(0) == 1,
        ;
    } else {
        let init = b.drop_last();
        lemma_be_value_add(a, init);
        assert((a + b).drop_last() =~= a + init);
        assert((a + b).last() == b.last());
        let x = be_value(a) as int;
        let y = pow256(init.len()) as int;
        assert(256 * (x * y) == x * (256 * y)) by (nonlinear_arith);
    }
}

pub proof fn lemma_long_at(bytes: Seq<u8>, at: int)
    requires
        0 <= at <= bytes.len() - 4,
    ensures
        be_value(bytes.subrange(at, at + 4)) == long_at(bytes, at),
{
    lemma_word_at(bytes, at);
    lemma_word_at(bytes, at + 2);
    lemma_pow256_values();
    lemma_be_value_add(bytes.subrange(at, at + 2), bytes.subrange(at + 2, at + 4));
    assert(bytes.subrange(at, at + 4) =~= bytes.subrange(at, at + 2) + bytes.subrange(
        at + 2,
        at + 4,
    ));
}

pub proof fn lemma_time_at(bytes: Seq<u8>, at: int)
    requires
        0 <= at <= bytes.len() - 8,
    ensures
        be_value(bytes.subrange(at, at + 8)) == time_at(bytes, at),
{
    lemma_long_at(bytes, at);
    lemma_long_at(bytes, at + 4);
    lemma_pow256_values();
    lemma_be_value_add(bytes.subrange(at, at + 4), bytes.subrange(at + 4, at + 8));
    assert(bytes.subrange(at, at + 8) =~= bytes.subrange(at, at + 4) + bytes.subrange(
        at + 4,
        at + 8,
    ));
}

/// A header is twelve bytes: version 2 with the mark of an extension, payload type 96, and then the
/// number, the timestamp and the source, each with its highest byte first.
pub proof fn law_header_bytes(
    seq: u16,
    timestamp: u32,
    ssrc: u32,
    has_extension: bool,
    r: Vec<u8>,
)
    requires
        call_ensures(build_rtp_header, (seq, timestamp, ssrc, has_extension), r),
    ensures
        r@.len() == 12,
        r@[0] == if has_extension {
            0x90u8
        } else {
            0x80u8
        },
        r@[1] == 96,
        word_at(r@, 2) == seq,
        long_at(r@, 4) == timestamp,
        long_at(r@, 8) == ssrc,
{
    lemma_header_bytes(seq, timestamp, ssrc, has_extension, Seq::empty());
    assert(r@ + Seq::<u8>::empty() =~= r@);
}

proof fn lemma_header_bytes(
    seq: u16,
    timestamp: u32,
    ssrc: u32,
    has_extension: bool,
    rest: Seq<u8>,
)
    ensures
        ({
            let p = rtp_header(seq, timestamp, ssrc, has_extension) + rest;
            &&& p.len() == 12 + rest.len()
            &&& p[0] == if has_extension {
                0x90u8
            } else {
                0x80u8
            }
            &&& p[1] == 96
            &&& word_at(p, 2) == seq
            &&& long_at(p, 4) == timestamp
            &&& long_at(p, 8) == ssrc
        }),
{
    let p = rtp_header(seq, timestamp, ssrc, has_extension) + rest;
    law_header_reads_back(seq, timestamp, ssrc, has_extension, rest);
    lemma_word_at(p, 2);
    lemma_long_at(p, 4);
    lemma_long_at(p, 8);
}

/// An extension is sixteen bytes: the profile, the length, the server's time, the flags, and three
/// more bytes.
pub proof fn law_extension_is_written_out(e: &RtpExtension, r: Vec<u8>)
    requires
        call_ensures(RtpExtension::to_bytes, (e,), r),
    ensures
        r@.len() == 16,
        word_at(r@, 0) == e.profile,
        word_at(r@, 2) == e.length,
        time_at(r@, 4) == e.server_time_ms,
        r@[12] == e.event_flags,
        r@.skip(13) == e.reserved@,
{
    lemma_extension_bytes(*e);
}

proof fn lemma_extension_bytes(e: RtpExtension)
    ensures
        ({
            let p = extension_bytes(e);
            &&& p.len() == 16
            &&& word_at(p, 0) == e.profile
            &&& word_at(p, 2) == e.length
            &&& time_at(p, 4) == e.server_time_ms
            &&& p[12] == e.event_flags
            &&& p.skip(13) == e.reserved@
        }),
{
    let p = extension_bytes(e);
    lemma_be_len(e.profile as nat, 2);
    lemma_be_len(e.length as nat, 2);
    lemma_be_len(e.server_time_ms as nat, 8);
    lemma_pow256_values();
    law_be_reads_back(e.profile as nat, 2);
    law_be_reads_back(e.length as nat, 2);
    law_be_reads_back(e.server_time_ms as nat, 8);
    assert(p.subrange(0, 2) =~= be_bytes(e.profile as nat, 2));
    assert(p.subrange(2, 4) =~= be_bytes(e.length as nat, 2));
    assert(p.subrange(4, 12) =~= be_bytes(e.server_time_ms as nat, 8));
    lemma_word_at(p, 0);
    lemma_word_at(p, 2);
    lemma_time_at(p, 4);
    assert(p.skip(13) =~= e.reserved@);
}

/// The extension that carries a time names the profile 0xBEDE, three words, that time and the flag 1,
/// and nothing else.
pub proof fn law_time_extension(server_time_ms: u64, r: RtpExtension)
    requires
        call_ensures(RtpExtension::time_sync_at, (server_time_ms,), r),
    ensures
        r.profile == 0xBEDE,
        r.length == 3,
        r.server_time_ms == server_time_ms,
        r.event_flags == 1,
        r.reserved@ == seq![0u8, 0u8, 0u8],
{
}

/// Whether `p` is packet `k` of the `count` packets into which a frame is cut. All packets are full
/// but the last: a packet is at most 1400 bytes long, with its header, and in a frame with an
/// extension each leaves room for one. Packet after packet carries the audio in its order. Packet `k`
/// bears the number `k` after the first, the frame's timestamp and the source; the first alone is
/// marked and bears the extension, if there is one.
pub open spec fn is_part_of_frame(
    p: Seq<u8>,
    audio: Seq<u8>,
    seq: u16,
    timestamp: u32,
    extension: Option<RtpExtension>,
    k: int,
    count: int,
) -> bool {
    let room: int = if extension is Some {
        1372
    } else {
        1388
    };
    let marked = extension is Some && k == 0;
    let head: int = if marked {
        28
    } else {
        12
    };
    &&& k * room < audio.len()
    &&& k + 1 < count ==> p.len() == head + room
    &&& k + 1 == count ==> p.len() == head + (audio.len() - k * room)
    &&& head < p.len() <= 1400
    &&& p.skip(head) == audio.subrange(k * room, k * room + (p.len() - head))
    &&& p[0] == if marked {
        0x90u8
    } else {
        0x80u8
    }
    &&& p[1] == 96
    &&& word_at(p, 2) == (seq + k) % 0x1_0000
    &&& long_at(p, 4) == timestamp
    &&& long_at(p, 8) == 0x12345678
    &&& marked ==> {
        let e = extension->Some_0;
        &&& word_at(p, 12) == e.profile
        &&& word_at(p, 14) == e.length
        &&& time_at(p, 16) == e.server_time_ms
        &&& p[24] == e.event_flags
        &&& p.subrange(25, 28) == e.reserved@
    }
}

proof fn lemma_part_of_frame(
    payload: Seq<u8>,
    seq: u16,
    timestamp: u32,
    extension: Option<RtpExtension>,
    k: int,
)
    requires
        0 <= k < frame_packets(payload, seq, timestamp, extension).len(),
    ensures
        ({
            let packets = frame_packets(payload, seq, timestamp, extension);
            is_part_of_frame(
                packets[k],
                payload,
                seq,
                timestamp,
                extension,
                k,
                packets.len() as int,
            )
        }),
{
    let size = chunk_size(extension is Some);
    let part = chunk(payload, size, k as nat);
    let marked = extension is Some && k == 0;
    let number = seq_after(seq, k as nat);
    let header = rtp_header(number, timestamp, RTP_SSRC, marked);
    let p = frame_packets(payload, seq, timestamp, extension)[k];
    assert(p == frame_packet(payload, seq, timestamp, extension, k as nat));
    lemma_chunk_bounds(payload.len(), size, k as nat);
    assert((k + 1) * size == k * size + size) by (nonlinear_arith);
    lemma_header_len(number, timestamp, RTP_SSRC, marked);
    if marked {
        let e = extension->Some_0;
        lemma_extension_len(e);
        assert(p =~= header + (extension_bytes(e) + part));
        lemma_header_bytes(number, timestamp, RTP_SSRC, marked, extension_bytes(e) + part);
        law_extension_reads_back(number, timestamp, RTP_SSRC, e, part);
        lemma_word_at(p, 12);
        lemma_word_at(p, 14);
        lemma_time_at(p, 16);
        assert(p.skip(28) =~= part);
    } else {
        assert(p =~= header + part);
        lemma_header_bytes(number, timestamp, RTP_SSRC, marked, part);
        assert(p.skip(12) =~= part);
    }
}

/// The audio of a frame is cut into the packets of a frame.
pub proof fn law_frame_is_cut_into_packets(
    payload: &Vec<u8>,
    seq: u16,
    timestamp: u32,
    extension: Option<RtpExtension>,
    r: Vec<Vec<u8>>,
    k: int,
)
    requires
        call_ensures(packetize, (payload, seq, timestamp, extension), r),
        0 <= k < r@.len(),
    ensures
        is_part_of_frame(
            r@[k]@,
            payload@,
            seq,
            timestamp,
            extension,
            k,
            r@.len() as int,
        ),
{
    assert(views(r@).len() == r@.len());
    assert(views(r@)[k] == r@[k]@);
    lemma_part_of_frame(payload@, seq, timestamp, extension, k);
}

/// A frame has packets exactly if it has audio.
pub proof fn law_audio_makes_packets(
    payload: &Vec<u8>,
    seq: u16,
    timestamp: u32,
    extension: Option<RtpExtension>,
    r: Vec<Vec<u8>>,
)
    requires
        call_ensures(packetize, (payload, seq, timestamp, extension), r),
    ensures
        r@.len() == 0 <==> payload@.len() == 0,
{
    assert(views(r@).len() == r@.len());
    law_packets_carry_the_audio(payload@, seq, timestamp, extension);
    if r@.len() > 0 {
        law_frame_is_cut_into_packets(payload, seq, timestamp, extension, r, 0);
        assert(0 * 1372 == 0 && 0 * 1388 == 0);
    } else {
        assert(views(r@) =~= Seq::empty());
    }
}

/// The sample in four bytes, lowest first, in two's complement.
pub open spec fn sample_in(bytes: Seq<u8>, at: int) -> int {
    let n = bytes[at] + 0x100 * bytes[at + 1] + 0x1_0000 * bytes[at + 2] + 0x100_0000 * bytes[at
        + 3];
    if n < 0x8000_0000 {
        n
    } else {
        n - 0x1_0000_0000
    }
}

proof fn lemma_sample_in(bytes: Seq<u8>, at: int)
    requires
        0 <= at <= bytes.len() - 4,
    ensures
        sample_in(bytes, at) == from_twos_complement(le_value(bytes.subrange(at, at + 4))),
{
    let s = bytes.subrange(at, at + 4);
    reveal_with_fuel(le_value, 5);
    assert(s.skip(1).skip(1) =~= s.skip(2));
    assert(s.skip(2).skip(1) =~= s.skip(3));
    assert(s.skip(3).skip(1) =~= Seq::empty());
    assert(s.skip(1)[0] == s[1] && s.skip(2)[0] == s[2] && s.skip(3)[0] == s[3]);
}

proof fn lemma_payload_samples(samples: Seq<i32>, k: int)
    requires
        0 <= k < samples.len(),
    ensures
        payload_bytes(samples).len() == 4 * samples.len(),
        sample_in(payload_bytes(samples), 4 * k) == samples[k],
{
    law_payload_layout(samples);
    law_sample_reads_back(samples[k]);
    lemma_sample_in(payload_bytes(samples), 4 * k);
    assert(payload_bytes(samples).subrange(4 * k, 4 * k + 4) == sample_bytes(samples[k]));
}

/// Samples are written one behind the other, four bytes each, lowest byte first.
pub proof fn law_samples_are_written_out(samples: &Vec<i32>, r: Vec<u8>, k: int)
    requires
        call_ensures(encode_samples, (samples,), r),
    ensures
        r@.len() == 4 * samples@.len(),
        0 <= k < samples@.len() ==> sample_in(r@, 4 * k) == samples@[k],
{
    law_payload_layout(samples@);
    if 0 <= k < samples@.len() {
        lemma_payload_samples(samples@, k);
    }
}

/// What channel `i` of a stream plays at instant `f`: the physical channel that is mapped there, if
/// it is sent and the console has it, else silence. Where less was captured than a frame, silence
/// follows.
pub open spec fn is_heard(
    captured: Seq<i32>,
    mappings: Seq<ChannelMapping>,
    i: int,
    f: int,
    sample: int,
) -> bool {
    if i < mappings.len() && mappings[i].enabled && 1 <= mappings[i].physical_channel <= 32 {
        let at = f * 32 + (mappings[i].physical_channel - 1);
        sample == if at < captured.len() {
            captured[at] as int
        } else {
            0
        }
    } else {
        sample == 0
    }
}

proof fn lemma_heard(
    captured: Seq<i32>,
    mappings: Seq<ChannelMapping>,
    channels: nat,
    i: int,
    f: int,
)
    ensures
        ({
            let audio = stream_payload(captured, views(mappings), channels);
            &&& audio.len() == 640 * channels
            &&& 0 <= i < channels && 0 <= f < 160 ==> is_heard(
                captured,
                mappings,
                i,
                f,
                sample_in(audio, 4 * (i * 160 + f)),
            )
        }),
{
    let audio = stream_payload(captured, views(mappings), channels);
    if channels == 0 {
        assert(audio =~= Seq::empty());
    } else if 0 <= i < channels && 0 <= f < 160 {
        lemma_heard_at(captured, mappings, channels, i, f);
    } else {
        lemma_heard_at(captured, mappings, channels, 0, 0);
    }
}

proof fn lemma_heard_at(
    captured: Seq<i32>,
    mappings: Seq<ChannelMapping>,
    channels: nat,
    i: int,
    f: int,
)
    requires
        0 <= i < channels,
        0 <= f < 160,
    ensures
        ({
            let audio = stream_payload(captured, views(mappings), channels);
            &&& audio.len() == 640 * channels
            &&& is_heard(captured, mappings, i, f, sample_in(audio, 4 * (i * 160 + f)))
        }),
{
    let v = views(mappings);
    let frames = FRAME_LENGTH as nat;
    let grouped = by_channel(captured, USB_CHANNELS as nat, frames);
    let mapped = mapped_frame(grouped, v, frames, channels);
    lemma_mapped_layout(grouped, v, frames, channels, i as nat);
    let k = i * 160 + f;
    assert(i * 160 + 160 <= channels * 160) by (nonlinear_arith)
        requires
            i + 1 <= channels,
    ;
    lemma_payload_samples(mapped, k);
    if i < mappings.len() && mappings[i].enabled && 1 <= mappings[i].physical_channel <= 32 {
        assert(v[i] == mappings[i]@);
        let c = (mappings[i].physical_channel - 1) as nat;
        let block = mapped_block(grouped, v, frames, i);
        assert(grouped.len() == 32 * 160);
        assert(block == grouped.subrange((c * 160) as int, (c * 160 + 160) as int));
        crate::audio::lemma_position(frames, c, f as nat);
        assert(block[f] == grouped[c * 160 + f]);
        assert(grouped[c * 160 + f] == sample_at(captured, 32, f as nat, c));
        assert(mapped.subrange(i * 160, i * 160 + 160)[f] == mapped[k]);
    } else {
        let block = mapped_block(grouped, v, frames, i);
        if i < mappings.len() {
            assert(v[i] == mappings[i]@);
        }
        assert(block[f] == 0);
        assert(mapped.subrange(i * 160, i * 160 + 160)[f] == mapped[k]);
    }
}

/// The packets of a frame carry, for each channel of the stream and each instant, the sample of the
/// physical channel that is mapped there, channel after channel, and nothing else; and the stream
/// goes on behind them.
pub proof fn law_frame_carries_the_mapped_channels(
    s: &mut RtpStream,
    captured: &Vec<i32>,
    mappings: &Vec<ChannelMapping>,
    extension: Option<RtpExtension>,
    r: Vec<Vec<u8>>,
    i: int,
    f: int,
    k: int,
)
    requires
        call_ensures(RtpStream::next_frame_with, (s, captured, mappings, extension), r),
        old(s).extension_counter < u32::MAX,
    ensures
        audio_of(views(r@)).len() == 640 * old(s).channels,
        0 <= i < old(s).channels && 0 <= f < 160 ==> is_heard(
            captured@,
            mappings@,
            i,
            f,
            sample_in(audio_of(views(r@)), 4 * (i * 160 + f)),
        ),
        0 <= k < r@.len() ==> is_part_of_frame(
            r@[k]@,
            audio_of(views(r@)),
            old(s).seq,
            old(s).timestamp,
            extension,
            k,
            r@.len() as int,
        ),
        final(s).seq == (old(s).seq + r@.len()) % 0x1_0000,
        final(s).timestamp == (old(s).timestamp + 160) % 0x1_0000_0000,
        final(s).extension_counter == old(s).extension_counter + 1,
        final(s).channels == old(s).channels,
        final(s).sent_packets == old(s).sent_packets,
        final(s).send_errors == old(s).send_errors,
{
    let audio = stream_payload(captured@, views(mappings@), old(s).channels as nat);
    lemma_heard(captured@, mappings@, old(s).channels as nat, i, f);
    law_packets_carry_the_audio(audio, old(s).seq, old(s).timestamp, extension);
    if 0 <= k < r@.len() {
        assert(views(r@).len() == r@.len());
        assert(views(r@)[k] == r@[k]@);
        lemma_part_of_frame(audio, old(s).seq, old(s).timestamp, extension, k);
    }
}

/// Whether `p` is packet `k` of a frame that carries the server's time or does not.
pub open spec fn is_timed_part(
    p: Seq<u8>,
    seq: u16,
    timestamp: u32,
    timed: bool,
    k: int,
) -> bool {
    &&& p.len() <= 1400
    &&& p[0] == if timed && k == 0 {
        0x90u8
    } else {
        0x80u8
    }
    &&& timed && k == 0 ==> {
        &&& word_at(p, 12) == 0xBEDE
        &&& word_at(p, 14) == 3
        &&& call_ensures(server_time_ms, (), time_at(p, 16) as u64)
        &&& p[24] == 1
        &&& p[25] == 0 && p[26] == 0 && p[27] == 0
    }
    &&& word_at(p, 2) == (seq + k) % 0x1_0000
    &&& long_at(p, 4) == timestamp
}

proof fn lemma_timed_part(
    p: Seq<u8>,
    audio: Seq<u8>,
    seq: u16,
    timestamp: u32,
    e: Option<RtpExtension>,
    k: int,
    count: int,
)
    requires
        0 <= k < count,
        is_part_of_frame(p, audio, seq, timestamp, e, k, count),
        e matches Some(x) ==> is_time_sync(x, x.server_time_ms) && call_ensures(
            server_time_ms,
            (),
            x.server_time_ms,
        ),
    ensures
        is_timed_part(p, seq, timestamp, e is Some, k),
{
    if e is Some && k == 0 {
        let tail = p.subrange(25, 28);
        assert(tail == seq![0u8, 0u8, 0u8]);
        assert(tail[0] == p[25] && tail[1] == p[26] && tail[2] == p[27]);
    }
}

/// Of the frames of a stream every 250th, from the first on, carries the server's time, and no
/// other: its first packet is marked and bears the profile 0xBEDE, three words and the flag 1. The
/// frame is the same in all else, and the stream goes on behind it.
pub proof fn law_every_250th_frame_carries_the_time(
    s: &mut RtpStream,
    captured: &Vec<i32>,
    mappings: &Vec<ChannelMapping>,
    r: Vec<Vec<u8>>,
    i: int,
    f: int,
    k: int,
)
    requires
        call_ensures(RtpStream::next_frame, (s, captured, mappings), r),
        old(s).extension_counter < u32::MAX,
    ensures
        audio_of(views(r@)).len() == 640 * old(s).channels,
        0 <= i < old(s).channels && 0 <= f < 160 ==> is_heard(
            captured@,
            mappings@,
            i,
            f,
            sample_in(audio_of(views(r@)), 4 * (i * 160 + f)),
        ),
        r@.len() > 0 <==> old(s).channels > 0,
        0 <= k < r@.len() ==> is_timed_part(
            r@[k]@,
            old(s).seq,
            old(s).timestamp,
            old(s).extension_counter % 250 == 0,
            k,
        ),
        final(s).seq == (old(s).seq + r@.len()) % 0x1_0000,
        final(s).timestamp == (old(s).timestamp + 160) % 0x1_0000_0000,
        final(s).extension_counter == old(s).extension_counter + 1,
        final(s).channels == old(s).channels,
        final(s).sent_packets == old(s).sent_packets,
        final(s).send_errors == old(s).send_errors,
{
    let audio = stream_payload(captured@, views(mappings@), old(s).channels as nat);
    let e = choose|e: Option<RtpExtension>|
        {
            &&& e is Some == extension_due(*old(s))
            &&& e matches Some(x) ==> call_ensures(server_time_ms, (), x.server_time_ms)
                && is_time_sync(x, x.server_time_ms)
            &&& views(r@) == #[trigger] frame_packets(audio, old(s).seq, old(s).timestamp, e)
        };
    assert(views(r@) == frame_packets(audio, old(s).seq, old(s).timestamp, e));
    lemma_heard(captured@, mappings@, old(s).channels as nat, i, f);
    law_packets_carry_the_audio(audio, old(s).seq, old(s).timestamp, e);
    assert(views(r@).len() == r@.len());
    if r@.len() == 0 {
        assert(views(r@) =~= Seq::empty());
    } else {
        lemma_part_of_frame(audio, old(s).seq, old(s).timestamp, e, 0);
        assert(0 * 1372 == 0 && 0 * 1388 == 0);
    }
    if 0 <= k < r@.len() {
        assert(views(r@)[k] == r@[k]@);
        lemma_part_of_frame(audio, old(s).seq, old(s).timestamp, e, k);
        lemma_timed_part(
            r@[k]@,
            audio,
            old(s).seq,
            old(s).timestamp,
            e,
            k,
            r@.len() as int,
        );
    }
}

/// The packet of a frame without the mapping carries all samples behind a header without a mark, and
/// the stream goes on behind it.
pub proof fn law_plain_packet_carries_the_samples(
    s: &mut RtpStream,
    captured: &Vec<i32>,
    r: Vec<u8>,
    k: int,
)
    requires
        call_ensures(RtpStream::next_plain_packet, (s, captured), r),
    ensures
        r@.len() == 12 + 4 * captured@.len(),
        r@[0] == 0x80,
        r@[1] == 96,
        word_at(r@, 2) == old(s).seq,
        long_at(r@, 4) == old(s).timestamp,
        long_at(r@, 8) == 0x12345678,
        0 <= k < captured@.len() ==> sample_in(r@, 12 + 4 * k) == captured@[k],
        final(s).seq == (old(s).seq + 1) % 0x1_0000,
        final(s).timestamp == (old(s).timestamp + 160) % 0x1_0000_0000,
        final(s).channels == old(s).channels,
        final(s).extension_counter == old(s).extension_counter,
        final(s).sent_packets == old(s).sent_packets,
        final(s).send_errors == old(s).send_errors,
{
    let audio = payload_bytes(captured@);
    lemma_header_bytes(old(s).seq, old(s).timestamp, RTP_SSRC, false, audio);
    law_payload_layout(captured@);
    if 0 <= k < captured@.len() {
        lemma_payload_samples(captured@, k);
        lemma_header_len(old(s).seq, old(s).timestamp, RTP_SSRC, false);
        assert forall|j: int| 0 <= j < 4 implies #[trigger] r@[12 + 4 * k + j] == audio[4 * k + j] by {}
        assert(r@[12 + 4 * k + 0] == audio[4 * k + 0]);
        assert(r@[12 + 4 * k + 1] == audio[4 * k + 1]);
        assert(r@[12 + 4 * k + 2] == audio[4 * k + 2]);
        assert(r@[12 + 4 * k + 3] == audio[4 * k + 3]);
    }
}

/// Channel `i` of a mapped frame holds the samples of the physical channel that is mapped there, in
/// their order, or silence where none is sent there or the frame does not hold it.
pub proof fn law_channels_are_rearranged(
    frame: &Vec<i32>,
    mappings: &Vec<ChannelMapping>,
    frames: usize,
    channels: usize,
    r: Vec<i32>,
    i: int,
    f: int,
)
    requires
        call_ensures(map_channels, (frame, mappings, frames, channels), r),
        frame_fits(USB_CHANNELS as nat, frames as nat),
        0 <= i < channels,
        0 <= f < frames,
    ensures
        r@.len() == channels * frames,
        r@[i * frames + f] == if i < mappings@.len() && mappings@[i].enabled && 1
            <= mappings@[i].physical_channel <= 32 && mappings@[i].physical_channel * frames
            <= frame@.len() {
            frame@[(mappings@[i].physical_channel - 1) * frames + f]
        } else {
            0
        },
{
    let v = views(mappings@);
    lemma_mapped_layout(frame@, v, frames as nat, channels as nat, i as nat);
    assert(i * frames + frames <= channels * frames) by (nonlinear_arith)
        requires
            i + 1 <= channels,
    ;
    assert(0 <= i * frames) by (nonlinear_arith)
        requires
            0 <= i,
    ;
    if i < mappings@.len() {
        assert(v[i] == mappings@[i]@);
        let p = mappings@[i].physical_channel as int;
        assert(p * frames == (p - 1) * frames + frames) by (nonlinear_arith);
        if p >= 1 {
            assert(0 <= (p - 1) * frames) by (nonlinear_arith)
                requires
                    p >= 1,
            ;
        }
    }
    let block = mapped_block(frame@, v, frames as nat, i);
    lemma_block_len(frame@, v, frames as nat, i);
    assert(r@.subrange(i * frames, i * frames + frames)[f] == r@[i * frames + f]);
    assert(r@[i * frames + f] == block[f]);
}

} // verus!
