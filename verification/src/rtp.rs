//! RTP packets: their headers, the time that some of them carry, and the audio of mapped channels.

use crate::audio::frame_fits;
use crate::clock::server_time_ms;
use crate::config::USB_CHANNELS;
use crate::rows::views;
use crate::tables::{ChannelMapping, ChannelMappingView};
use crate::wire::{be_bytes, be_value, push_be};
use vstd::arithmetic::div_mod::lemma_fundamental_div_mod_converse;
use vstd::prelude::*;

verus! {

pub const RTP_VERSION: u8 = 2;

/// A payload type of the dynamic range.
pub const RTP_PAYLOAD_TYPE: u8 = 96;

/// The source that all packets name.
pub const RTP_SSRC: u32 = 0x12345678;

/// The port on which clients receive.
pub const RTP_PORT: u16 = 5004;

/// The profile that a header extension names.
pub const EXTENSION_PROFILE: u16 = 0xBEDE;

/// After how many frames the time is sent again: five seconds of frames.
pub const EXTENSION_INTERVAL: u32 = 250;

/// The event flag of an extension that carries the server's time.
pub const TIME_SYNC_FLAG: u8 = 1;

/// The instants in one frame.
pub const FRAME_LENGTH: usize = 160;

/// The milliseconds between two frames.
pub const FRAME_INTERVAL_MS: u64 = 20;

/// The most bytes that a packet may have.
pub const MTU: usize = 1400;

/// The bytes of a header.
pub const HEADER_SIZE: usize = 12;

/// The bytes of a header extension.
pub const EXTENSION_SIZE: usize = 16;

/// How long a client may keep silent before it is sent nothing more, in nanoseconds.
pub const HEARTBEAT_TIMEOUT_NS: u64 = 30_000_000_000;

/// The channels that a client is sent through the mapping where it did not say how many.
pub const MAPPED_CHANNELS: usize = 32;

/// The channels that a client is sent without the mapping where it did not say how many.
pub const PLAIN_CHANNELS: usize = 2;

/// A header extension.
#[derive(Debug, Clone, Copy)]
pub struct RtpExtension {
    pub profile: u16,
    /// The length of what follows, in words of four bytes.
    pub length: u16,
    /// The server's time in milliseconds since the start of 1970.
    pub server_time_ms: u64,
    pub event_flags: u8,
    pub reserved: [u8; 3],
}

/// The header of a packet: version 2 and the mark of an extension, the payload type, then the
/// sequence number, the timestamp and the source.
pub open spec fn rtp_header(seq: u16, timestamp: u32, ssrc: u32, has_extension: bool) -> Seq<u8> {
    seq![
        (if has_extension {
            0x90u8
        } else {
            0x80u8
        }),
        RTP_PAYLOAD_TYPE,
    ] + be_bytes(seq as nat, 2) + be_bytes(timestamp as nat, 4) + be_bytes(ssrc as nat, 4)
}

/// An extension as it stands in a packet.
pub open spec fn extension_bytes(e: RtpExtension) -> Seq<u8> {
    be_bytes(e.profile as nat, 2) + be_bytes(e.length as nat, 2) + be_bytes(
        e.server_time_ms as nat,
        8,
    ) + seq![e.event_flags] + e.reserved@
}

/// Whether `e` is the extension that carries the time `server_time_ms`.
pub open spec fn is_time_sync(e: RtpExtension, server_time_ms: u64) -> bool {
    &&& e.profile == EXTENSION_PROFILE
    &&& e.length == 3
    &&& e.server_time_ms == server_time_ms
    &&& e.event_flags == TIME_SYNC_FLAG
    &&& e.reserved@ == seq![0u8, 0u8, 0u8]
}

/// Whether a packet is marked as one with an extension.
pub open spec fn marks_extension(packet: Seq<u8>) -> bool {
    (packet[0] / 16) % 2 == 1
}

/// The sequence number in a packet.
pub open spec fn sequence_of(packet: Seq<u8>) -> nat {
    be_value(packet.subrange(2, 4))
}

/// The timestamp in a packet.
pub open spec fn timestamp_of(packet: Seq<u8>) -> nat {
    be_value(packet.subrange(4, 8))
}

/// The source in a packet.
pub open spec fn source_of(packet: Seq<u8>) -> nat {
    be_value(packet.subrange(8, 12))
}

/// The server's time in the extension of a packet.
pub open spec fn server_time_of(packet: Seq<u8>) -> nat {
    be_value(packet.subrange(16, 24))
}

/// What a packet carries behind its header and extension.
pub open spec fn body_of(packet: Seq<u8>) -> Seq<u8> {
    if marks_extension(packet) {
        packet.skip(HEADER_SIZE + EXTENSION_SIZE)
    } else {
        packet.skip(HEADER_SIZE as int)
    }
}

/// The samples of mapped channel `i` in a frame that is grouped by channel: those of the physical
/// channel that is mapped there, or silence where none is.
pub open spec fn mapped_block(
    frame: Seq<i32>,
    mappings: Seq<ChannelMappingView>,
    frames: nat,
    i: int,
) -> Seq<i32> {
    let p = mappings[i].physical_channel as nat;
    if i < mappings.len() && mappings[i].enabled && 1 <= p <= USB_CHANNELS && p * frames
        <= frame.len() {
        frame.subrange((p - 1) * frames, (p * frames) as int)
    } else {
        Seq::new(frames, |k: int| 0i32)
    }
}

/// The samples of the first `channels` mapped channels, one channel after the other.
pub open spec fn mapped_frame(
    frame: Seq<i32>,
    mappings: Seq<ChannelMappingView>,
    frames: nat,
    channels: nat,
) -> Seq<i32>
    decreases channels,
{
    if channels == 0 {
        Seq::empty()
    } else {
        mapped_frame(frame, mappings, frames, (channels - 1) as nat) + mapped_block(
            frame,
            mappings,
            frames,
            channels - 1,
        )
    }
}

/// How many bytes of audio the packets of a frame carry at most.
pub open spec fn chunk_size(has_extension: bool) -> nat {
    if has_extension {
        (MTU - HEADER_SIZE - EXTENSION_SIZE) as nat
    } else {
        (MTU - HEADER_SIZE) as nat
    }
}

/// How many chunks of `size` bytes `len` bytes make.
pub open spec fn chunk_count(len: nat, size: nat) -> nat {
    ((len + size - 1) / size as int) as nat
}

/// Chunk `k` of the audio.
pub open spec fn chunk(payload: Seq<u8>, size: nat, k: nat) -> Seq<u8> {
    let start = (k * size) as int;
    payload.subrange(
        start,
        if start + size <= payload.len() {
            start + size
        } else {
            payload.len() as int
        },
    )
}

/// The sequence number `k` packets after `seq`.
pub open spec fn seq_after(seq: u16, k: nat) -> u16 {
    ((seq + k) % 0x1_0000) as u16
}

/// Packet `k` of a frame. The first packet carries the extension where there is one.
pub open spec fn frame_packet(
    payload: Seq<u8>,
    seq: u16,
    timestamp: u32,
    extension: Option<RtpExtension>,
    k: nat,
) -> Seq<u8> {
    let marked = extension is Some && k == 0;
    rtp_header(seq_after(seq, k), timestamp, RTP_SSRC, marked) + (if marked {
        extension_bytes(extension->Some_0)
    } else {
        Seq::empty()
    }) + chunk(payload, chunk_size(extension is Some), k)
}

/// The packets of a frame.
pub open spec fn frame_packets(
    payload: Seq<u8>,
    seq: u16,
    timestamp: u32,
    extension: Option<RtpExtension>,
) -> Seq<Seq<u8>> {
    Seq::new(
        chunk_count(payload.len(), chunk_size(extension is Some)),
        |k: int| frame_packet(payload, seq, timestamp, extension, k as nat),
    )
}

/// How many of the mappings are enabled.
pub open spec fn enabled_count(mappings: Seq<ChannelMappingView>) -> nat
    decreases mappings.len(),
{
    if mappings.len() == 0 {
        0
    } else {
        enabled_count(mappings.drop_last()) + if mappings.last().enabled {
            1nat
        } else {
            0nat
        }
    }
}

impl RtpExtension {
    /// The extension that carries a given time.
    pub fn time_sync_at(server_time_ms: u64) -> (r: RtpExtension)
        ensures
            is_time_sync(r, server_time_ms),
    {
        let r = RtpExtension {
            profile: EXTENSION_PROFILE,
            length: 3,
            server_time_ms,
            event_flags: TIME_SYNC_FLAG,
            reserved: [0, 0, 0],
        };
        assert(r.reserved@ =~= seq![0u8, 0u8, 0u8]);
        r
    }

    /// The extension that carries the present time.
    pub fn new_time_sync() -> (r: RtpExtension)
        ensures
            exists|t: u64| #[trigger] call_ensures(server_time_ms, (), t) && is_time_sync(r, t),
    {
        RtpExtension::time_sync_at(server_time_ms())
    }

    /// The extension as it stands in a packet.
    pub fn to_bytes(&self) -> (r: Vec<u8>)
        ensures
            r@ == extension_bytes(*self),
    {
        let mut bytes: Vec<u8> = Vec::new();
        push_be(&mut bytes, self.profile as u64, 2);
        push_be(&mut bytes, self.length as u64, 2);
        push_be(&mut bytes, self.server_time_ms, 8);
        bytes.push(self.event_flags);
        bytes.push(self.reserved[0]);
        bytes.push(self.reserved[1]);
        bytes.push(self.reserved[2]);
        assert(bytes@ =~= extension_bytes(*self));
        bytes
    }
}

/// The header of a packet.
pub fn build_rtp_header(seq: u16, timestamp: u32, ssrc: u32, has_extension: bool) -> (r: Vec<u8>)
    ensures
        r@ == rtp_header(seq, timestamp, ssrc, has_extension),
{
    let mut header: Vec<u8> = Vec::new();
    header.push(
        if has_extension {
            RTP_VERSION * 64 + 16
        } else {
            RTP_VERSION * 64
        },
    );
    header.push(RTP_PAYLOAD_TYPE);
    push_be(&mut header, seq as u64, 2);
    push_be(&mut header, timestamp as u64, 4);
    push_be(&mut header, ssrc as u64, 4);
    assert(header@ =~= rtp_header(seq, timestamp, ssrc, has_extension));
    header
}

fn push_all(out: &mut Vec<u8>, bytes: &Vec<u8>, from: usize, to: usize)
    requires
        from <= to <= bytes@.len(),
    ensures
        final(out)@ == old(out)@ + bytes@.subrange(from as int, to as int),
{
    let mut i: usize = from;
    while i < to
        invariant
            from <= i <= to <= bytes@.len(),
            out@ == old(out)@ + bytes@.subrange(from as int, i as int),
        decreases to - i,
    {
        out.push(bytes[i]);
        assert(bytes@.subrange(from as int, i + 1) =~= bytes@.subrange(from as int, i as int).push(
            bytes@[i as int],
        ));
        i += 1;
    }
    assert(out@ =~= old(out)@ + bytes@.subrange(from as int, to as int));
}

proof fn lemma_chunk_count(len: nat, size: nat, k: nat)
    requires
        size > 0,
        len <= k * size,
        k > 0 ==> (k - 1) * size < len,
    ensures
        chunk_count(len, size) == k,
{
    let rest = len + size - 1 - k * size;
    if k > 0 {
        assert((k - 1) * size == k * size - size) by (nonlinear_arith);
    } else {
        assert(k * size == 0) by (nonlinear_arith)
            requires
                k == 0,
        ;
    }
    lemma_fundamental_div_mod_converse(
        len + size - 1,
        size as int,
        k as int,
        rest,
    );
}

/// Cuts the audio of one frame into packets.
pub fn packetize(
    payload: &Vec<u8>,
    seq: u16,
    timestamp: u32,
    extension: Option<RtpExtension>,
) -> (r: Vec<Vec<u8>>)
    ensures
        views(r@) == frame_packets(payload@, seq, timestamp, extension),
{
    let has_extension: bool = extension.is_some();
    let size: usize = if has_extension {
        MTU - HEADER_SIZE - EXTENSION_SIZE
    } else {
        MTU - HEADER_SIZE
    };
    let mut packets: Vec<Vec<u8>> = Vec::new();
    let mut offset: usize = 0;
    let mut number: u16 = seq;
    let ghost mut k: nat = 0;
    proof {
        assert(0 * size == 0);
    }
    while offset < payload.len()
        invariant
            offset <= payload@.len(),
            size == chunk_size(extension is Some),
            size > 0,
            has_extension == extension is Some,
            packets@.len() == k,
            number == seq_after(seq, k),
            (k == 0) == (offset == 0),
            k > 0 ==> (k - 1) * size < payload@.len(),
            offset == if k * size <= payload@.len() {
                (k * size) as int
            } else {
                payload@.len() as int
            },
            forall|j: int|
                0 <= j < k ==> (#[trigger] packets@[j])@ == frame_packet(
                    payload@,
                    seq,
                    timestamp,
                    extension,
                    j as nat,
                ),
        decreases payload@.len() - offset,
    {
        let marked: bool = has_extension && offset == 0;
        let end: usize = if payload.len() - offset > size {
            offset + size
        } else {
            payload.len()
        };
        let mut packet = build_rtp_header(number, timestamp, RTP_SSRC, marked);
        match extension {
            Some(e) => {
                if offset == 0 {
                    let bytes = e.to_bytes();
                    let len: usize = bytes.len();
                    push_all(&mut packet, &bytes, 0, len);
                    assert(bytes@.subrange(0, len as int) =~= bytes@);
                }
            },
            None => {},
        }
        push_all(&mut packet, payload, offset, end);
        proof {
            assert(packet@ =~= frame_packet(payload@, seq, timestamp, extension, k));
            assert((k + 1) * size == k * size + size) by (nonlinear_arith);
            k = k + 1;
        }
        packets.push(packet);
        number = number.wrapping_add(1);
        offset = end;
    }
    proof {
        lemma_chunk_count(payload@.len(), size as nat, k);
        assert(views(packets@) =~= frame_packets(payload@, seq, timestamp, extension));
    }
    packets
}

/// Rearranges a frame that is grouped by channel: the samples of the first `channels` mapped
/// channels, one channel after the other.
pub fn map_channels(
    frame: &Vec<i32>,
    mappings: &Vec<ChannelMapping>,
    frames: usize,
    channels: usize,
) -> (r: Vec<i32>)
    requires
        frame_fits(USB_CHANNELS as nat, frames as nat),
    ensures
        r@ == mapped_frame(frame@, views(mappings@), frames as nat, channels as nat),
{
    let ghost v = views(mappings@);
    let mut out: Vec<i32> = Vec::new();
    let mut i: usize = 0;
    while i < channels
        invariant
            i <= channels,
            v == views(mappings@),
            frame_fits(USB_CHANNELS as nat, frames as nat),
            out@ == mapped_frame(frame@, v, frames as nat, i as nat),
        decreases channels - i,
    {
        let ghost before = out@;
        let mut p: usize = 0;
        if i < mappings.len() {
            assert(v[i as int] == mappings@[i as int]@);
            if mappings[i].enabled {
                p = mappings[i].physical_channel as usize;
            }
        }
        let mut copied: bool = false;
        if 1 <= p && p <= USB_CHANNELS as usize {
            proof {
                assert(p * frames <= USB_CHANNELS * frames) by (nonlinear_arith)
                    requires
                        p <= USB_CHANNELS,
                ;
                assert((p - 1) * frames <= p * frames) by (nonlinear_arith)
                    requires
                        p >= 1,
                ;
            }
            let end: usize = p * frames;
            let start: usize = (p - 1) * frames;
            if end <= frame.len() {
                push_samples(&mut out, frame, start, end);
                copied = true;
            }
        }
        if !copied {
            push_silence(&mut out, frames);
        }
        assert(out@ =~= before + mapped_block(frame@, v, frames as nat, i as int));
        i += 1;
    }
    out
}

fn push_samples(out: &mut Vec<i32>, samples: &Vec<i32>, from: usize, to: usize)
    requires
        from <= to <= samples@.len(),
    ensures
        final(out)@ == old(out)@ + samples@.subrange(from as int, to as int),
{
    let mut i: usize = from;
    while i < to
        invariant
            from <= i <= to <= samples@.len(),
            out@ == old(out)@ + samples@.subrange(from as int, i as int),
        decreases to - i,
    {
        out.push(samples[i]);
        assert(samples@.subrange(from as int, i + 1) =~= samples@.subrange(
            from as int,
            i as int,
        ).push(samples@[i as int]));
        i += 1;
    }
    assert(out@ =~= old(out)@ + samples@.subrange(from as int, to as int));
}

fn push_silence(out: &mut Vec<i32>, count: usize)
    ensures
        final(out)@ == old(out)@ + Seq::new(count as nat, |k: int| 0i32),
{
    let mut i: usize = 0;
    while i < count
        invariant
            i <= count,
            out@ =~= old(out)@ + Seq::new(i as nat, |k: int| 0i32),
        decreases count - i,
    {
        out.push(0);
        i += 1;
    }
    assert(out@ =~= old(out)@ + Seq::new(count as nat, |k: int| 0i32));
}

} // verus!
