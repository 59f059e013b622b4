//! The stream of packets that one client is sent.

use crate::audio::{by_channel, group_by_channel};
use crate::clock::server_time_ms;
use crate::config::{
    count_requested_channels, requested_channels, ClientConfig, ClientConfigView, USB_CHANNELS,
};
use crate::rows::views;
use crate::rtp::{
    build_rtp_header, enabled_count, frame_packets, is_time_sync, map_channels, mapped_frame,
    packetize, rtp_header, seq_after, RtpExtension, EXTENSION_INTERVAL, FRAME_LENGTH,
    HEARTBEAT_TIMEOUT_NS, MAPPED_CHANNELS, PLAIN_CHANNELS, RTP_SSRC,
};
use crate::tables::{ChannelMapping, ChannelMappingView};
use crate::wire::{encode_samples, payload_bytes};
use vstd::prelude::*;

verus! {

/// How far the stream to one client has come.
#[derive(Debug, Clone, Copy, PartialEq, Eq, Structural)]
pub struct RtpStream {
    /// How many channels the client is sent.
    pub channels: usize,
    /// The sequence number of the next packet.
    pub seq: u16,
    /// The timestamp of the next frame.
    pub timestamp: u32,
    /// How many frames were sent through the mapping.
    pub extension_counter: u32,
    pub sent_packets: u64,
    pub send_errors: u64,
}

/// Whether the stream to a client goes on.
#[derive(Debug, Clone, Copy, PartialEq, Eq, Structural)]
pub enum StreamDecision {
    Continue,
    /// The client kept silent for too long.
    HeartbeatTimeout,
    /// The client is not, or no longer, among those that are sent audio.
    NotRegistered,
}

/// A stream that has sent nothing yet.
pub open spec fn fresh_stream(channels: nat) -> RtpStream {
    RtpStream {
        channels: channels as usize,
        seq: 0,
        timestamp: 0,
        extension_counter: 0,
        sent_packets: 0,
        send_errors: 0,
    }
}

/// How many channels a client is sent: as many as it asked for, but no more than are enabled.
pub open spec fn stream_channels(
    config: Option<ClientConfigView>,
    mappings: Seq<ChannelMappingView>,
) -> nat {
    let wanted = requested_channels(config, MAPPED_CHANNELS as nat);
    if wanted <= enabled_count(mappings) {
        wanted
    } else {
        enabled_count(mappings)
    }
}

/// Whether the next frame carries the server's time.
pub open spec fn extension_due(s: RtpStream) -> bool {
    s.extension_counter % EXTENSION_INTERVAL == 0
}

/// The timestamp one frame after `timestamp`.
pub open spec fn next_timestamp(timestamp: u32) -> u32 {
    ((timestamp + FRAME_LENGTH) % 0x1_0000_0000) as u32
}

/// The audio of a frame as the client is sent it.
pub open spec fn stream_payload(
    captured: Seq<i32>,
    mappings: Seq<ChannelMappingView>,
    channels: nat,
) -> Seq<u8> {
    payload_bytes(
        mapped_frame(
            by_channel(captured, USB_CHANNELS as nat, FRAME_LENGTH as nat),
            mappings,
            FRAME_LENGTH as nat,
            channels,
        ),
    )
}

/// The stream after a frame of `count` packets.
pub open spec fn after_frame(s: RtpStream, count: nat) -> RtpStream {
    RtpStream {
        seq: seq_after(s.seq, count),
        timestamp: next_timestamp(s.timestamp),
        extension_counter: (s.extension_counter + 1) as u32,
        ..s
    }
}

/// Whether the stream goes on to a client that was not heard of for that long, where the client
/// is known: thirty seconds are too long.
pub open spec fn heartbeat_decision(silent_for_ns: Option<u64>) -> StreamDecision {
    match silent_for_ns {
        Some(t) => if t >= HEARTBEAT_TIMEOUT_NS {
            StreamDecision::HeartbeatTimeout
        } else {
            StreamDecision::Continue
        },
        None => StreamDecision::NotRegistered,
    }
}

/// How many of the mappings are enabled.
pub fn count_enabled(mappings: &Vec<ChannelMapping>) -> (r: usize)
    ensures
        r == enabled_count(views(mappings@)),
{
    let ghost v = views(mappings@);
    let mut count: usize = 0;
    let mut i: usize = 0;
    proof {
        assert(v.take(0) =~= Seq::empty());
    }
    while i < mappings.len()
        invariant
            i <= mappings.len(),
            count <= i,
            v == views(mappings@),
            count == enabled_count(v.take(i as int)),
        decreases mappings.len() - i,
    {
        assert(v.take(i + 1).drop_last() =~= v.take(i as int));
        assert(v.take(i + 1).last() == mappings@[i as int]@);
        if mappings[i].enabled {
            count += 1;
        }
        i += 1;
    }
    assert(v.take(i as int) =~= v);
    count
}

/// Decides whether the stream to a client goes on. `silent_for_ns` is the time since its last
/// heartbeat, where the client is known.
pub fn check_heartbeat(silent_for_ns: Option<u64>) -> (r: StreamDecision)
    ensures
        r == heartbeat_decision(silent_for_ns),
{
    match silent_for_ns {
        Some(t) => if t >= HEARTBEAT_TIMEOUT_NS {
            StreamDecision::HeartbeatTimeout
        } else {
            StreamDecision::Continue
        },
        None => StreamDecision::NotRegistered,
    }
}

impl RtpStream {
    /// A stream of that many channels that has sent nothing yet.
    fn fresh(channels: usize) -> (r: RtpStream)
        ensures
            r == fresh_stream(channels as nat),
    {
        RtpStream {
            channels,
            seq: 0,
            timestamp: 0,
            extension_counter: 0,
            sent_packets: 0,
            send_errors: 0,
        }
    }

    /// The stream of mapped channels to a client, unless no mapping is enabled.
    pub fn start(config: Option<&ClientConfig>, mappings: &Vec<ChannelMapping>) -> (r: Option<
        RtpStream,
    >)
        ensures
            r == if enabled_count(views(mappings@)) == 0 {
                None
            } else {
                Some(
                    fresh_stream(
                        stream_channels(
                            match config {
                                Some(c) => Some(c@),
                                None => None,
                            },
                            views(mappings@),
                        ),
                    ),
                )
            },
    {
        let wanted: usize = count_requested_channels(config, MAPPED_CHANNELS);
        let enabled: usize = count_enabled(mappings);
        if enabled == 0 {
            return None;
        }
        let channels: usize = if wanted <= enabled {
            wanted
        } else {
            enabled
        };
        Some(RtpStream::fresh(channels))
    }

    /// The stream of channels to a client without the mapping.
    pub fn start_plain(config: Option<&ClientConfig>) -> (r: RtpStream)
        ensures
            r == fresh_stream(
                requested_channels(
                    match config {
                        Some(c) => Some(c@),
                        None => None,
                    },
                    PLAIN_CHANNELS as nat,
                ),
            ),
    {
        RtpStream::fresh(count_requested_channels(config, PLAIN_CHANNELS))
    }

    /// The packets of the next frame, given what the console sent (32 channels, interleaved) and
    /// the extension of the frame, where it has one.
    pub fn next_frame_with(
        &mut self,
        captured: &Vec<i32>,
        mappings: &Vec<ChannelMapping>,
        extension: Option<RtpExtension>,
    ) -> (r: Vec<Vec<u8>>)
        requires
            old(self).extension_counter < u32::MAX,
        ensures
            views(r@) == frame_packets(
                stream_payload(captured@, views(mappings@), old(self).channels as nat),
                old(self).seq,
                old(self).timestamp,
                extension,
            ),
            *final(self) == after_frame(*old(self), r@.len()),
    {
        let frame = group_by_channel(captured, USB_CHANNELS as usize, FRAME_LENGTH);
        let mapped = map_channels(&frame, mappings, FRAME_LENGTH, self.channels);
        let payload = encode_samples(&mapped);
        let packets = packetize(&payload, self.seq, self.timestamp, extension);
        let step: u16 = (packets.len() % 0x1_0000) as u16;
        self.seq = self.seq.wrapping_add(step);
        self.timestamp = self.timestamp.wrapping_add(FRAME_LENGTH as u32);
        self.extension_counter = self.extension_counter + 1;
        packets
    }

    /// The packets of the next frame. Every 250th frame, from the first on, carries the time at
    /// which it was made.
    pub fn next_frame(&mut self, captured: &Vec<i32>, mappings: &Vec<ChannelMapping>) -> (r: Vec<
        Vec<u8>,
    >)
        requires
            old(self).extension_counter < u32::MAX,
        ensures
            exists|extension: Option<RtpExtension>|
                {
                    &&& extension is Some == extension_due(*old(self))
                    &&& extension matches Some(e) ==> call_ensures(server_time_ms, (), e.server_time_ms)
                        && is_time_sync(e, e.server_time_ms)
                    &&& views(r@) == #[trigger] frame_packets(
                        stream_payload(captured@, views(mappings@), old(self).channels as nat),
                        old(self).seq,
                        old(self).timestamp,
                        extension,
                    )
                },
            *final(self) == after_frame(*old(self), r@.len()),
    {
        let extension: Option<RtpExtension> = if self.extension_counter % EXTENSION_INTERVAL == 0 {
            Some(RtpExtension::new_time_sync())
        } else {
            None
        };
        self.next_frame_with(captured, mappings, extension)
    }

    /// The one packet of the next frame of a stream without the mapping.
    pub fn next_plain_packet(&mut self, captured: &Vec<i32>) -> (r: Vec<u8>)
        ensures
            r@ == rtp_header(old(self).seq, old(self).timestamp, RTP_SSRC, false) + payload_bytes(
                captured@,
            ),
            *final(self) == (RtpStream {
                seq: seq_after(old(self).seq, 1),
                timestamp: next_timestamp(old(self).timestamp),
                ..*old(self)
            }),
    {
        let mut packet = build_rtp_header(self.seq, self.timestamp, RTP_SSRC, false);
        let mut payload = encode_samples(captured);
        packet.append(&mut payload);
        self.seq = self.seq.wrapping_add(1);
        self.timestamp = self.timestamp.wrapping_add(FRAME_LENGTH as u32);
        packet
    }

    /// Counts a packet that was sent, or that could not be.
    pub fn record_send(&mut self, sent: bool)
        requires
            sent ==> old(self).sent_packets < u64::MAX,
            !sent ==> old(self).send_errors < u64::MAX,
        ensures
            *final(self) == if sent {
                RtpStream { sent_packets: (old(self).sent_packets + 1) as u64, ..*old(self) }
            } else {
                RtpStream { send_errors: (old(self).send_errors + 1) as u64, ..*old(self) }
            },
    {
        if sent {
            self.sent_packets = self.sent_packets + 1;
        } else {
            self.send_errors = self.send_errors + 1;
        }
    }
}

proof fn lemma_enabled_count(mappings: Seq<ChannelMapping>)
    ensures
        enabled_count(views(mappings)) == mappings.filter(|m: ChannelMapping| m.enabled).len(),
    decreases mappings.len(),
{
    reveal(Seq::filter);
    if mappings.len() > 0 {
        let init = mappings.drop_last();
        lemma_enabled_count(init);
        assert(views(mappings).drop_last() =~= views(init));
        assert(views(mappings).last() == mappings.last()@);
    }
}

proof fn lemma_enabled_at_most_all(mappings: Seq<ChannelMapping>)
    ensures
        enabled_count(views(mappings)) <= mappings.len(),
    decreases mappings.len(),
{
    if mappings.len() > 0 {
        lemma_enabled_at_most_all(mappings.drop_last());
        assert(views(mappings).drop_last() =~= views(mappings.drop_last()));
    }
}

/// A client names no more channels than a list holds.
proof fn lemma_named_fit(config: Option<&ClientConfig>)
    ensures
        config matches Some(c) ==> (c.channels matches Some(list) ==> list@.len() <= usize::MAX),
{
    match config {
        Some(c) => match c.channels {
            Some(list) => {
                assert(list@.len() == list.len());
            },
            None => {},
        },
        None => {},
    }
}

/// Mappings of which any is enabled count for something, and others for nothing.
pub proof fn lemma_any_enabled(mappings: Seq<ChannelMapping>)
    ensures
        enabled_count(views(mappings)) > 0 <==> exists|i: int|
            0 <= i < mappings.len() && (#[trigger] mappings[i]).enabled,
    decreases mappings.len(),
{
    if mappings.len() > 0 {
        let init = mappings.drop_last();
        lemma_any_enabled(init);
        assert(views(mappings).drop_last() =~= views(init));
        assert(views(mappings).last() == mappings.last()@);
        if enabled_count(views(mappings)) > 0 {
            if mappings.last().enabled {
                assert(mappings[mappings.len() - 1].enabled);
            } else {
                let i = choose|i: int| 0 <= i < init.len() && (#[trigger] init[i]).enabled;
                assert(mappings[i].enabled);
            }
        }
        if exists|i: int| 0 <= i < mappings.len() && (#[trigger] mappings[i]).enabled {
            let i = choose|i: int| 0 <= i < mappings.len() && (#[trigger] mappings[i]).enabled;
            if i < init.len() {
                assert(init[i].enabled);
            }
        }
    }
}

/// A stream is started exactly if a mapping is enabled. It then has the greatest number of channels
/// that is neither above the number of enabled mappings nor above the number of channels that the
/// client named, or 32 where it named none; and it starts from nothing.
pub proof fn law_stream_has_as_many_channels_as_possible(
    config: Option<&ClientConfig>,
    mappings: &Vec<ChannelMapping>,
    r: Option<RtpStream>,
)
    requires
        call_ensures(RtpStream::start, (config, mappings), r),
    ensures
        r is Some <==> exists|i: int|
            0 <= i < mappings@.len() && (#[trigger] mappings@[i]).enabled,
        r matches Some(s) ==> {
            let enabled = mappings@.filter(|m: ChannelMapping| m.enabled).len();
            let named: nat = match config {
                Some(c) => match c.channels {
                    Some(list) => list@.len(),
                    None => 32,
                },
                None => 32,
            };
            &&& s.channels <= enabled
            &&& s.channels <= named
            &&& s.channels == enabled || s.channels == named
            &&& s.seq == 0 && s.timestamp == 0 && s.extension_counter == 0
            &&& s.sent_packets == 0 && s.send_errors == 0
        },
{
    lemma_enabled_count(mappings@);
    lemma_any_enabled(mappings@);
    lemma_enabled_at_most_all(mappings@);
    assert(mappings@.len() == mappings.len());
    lemma_named_fit(config);
}

/// A stream without the mapping has the channels that the client named, or two where it named
/// none, and starts from nothing.
pub proof fn law_plain_stream_has_the_channels_named(config: Option<&ClientConfig>, r: RtpStream)
    requires
        call_ensures(RtpStream::start_plain, (config,), r),
    ensures
        r.channels == match config {
            Some(c) => match c.channels {
                Some(list) => list@.len(),
                None => 2,
            },
            None => 2,
        },
        r.seq == 0 && r.timestamp == 0 && r.extension_counter == 0,
        r.sent_packets == 0 && r.send_errors == 0,
{
    lemma_named_fit(config);
}

/// Every packet of a stream is counted once, as sent or as failed, and nothing else changes.
pub proof fn law_every_packet_is_counted(s: &mut RtpStream, sent: bool)
    requires
        call_ensures(RtpStream::record_send, (s, sent), ()),
        old(s).sent_packets < u64::MAX,
        old(s).send_errors < u64::MAX,
    ensures
        final(s).sent_packets + final(s).send_errors == old(s).sent_packets + old(s).send_errors
            + 1,
        final(s).sent_packets == old(s).sent_packets <==> !sent,
        final(s).sent_packets >= old(s).sent_packets,
        final(s).send_errors >= old(s).send_errors,
        final(s).channels == old(s).channels,
        final(s).seq == old(s).seq,
        final(s).timestamp == old(s).timestamp,
        final(s).extension_counter == old(s).extension_counter,
{
}

/// The stream to a known client goes on exactly while it was heard of less than thirty seconds ago;
/// the stream to an unknown one never does.
pub proof fn law_thirty_seconds_end_a_stream(silent_for_ns: Option<u64>, r: StreamDecision)
    requires
        call_ensures(check_heartbeat, (silent_for_ns,), r),
    ensures
        r == StreamDecision::Continue <==> (silent_for_ns matches Some(t) && t < 30_000_000_000),
        r == StreamDecision::HeartbeatTimeout <==> (silent_for_ns matches Some(t) && t
            >= 30_000_000_000),
        r == StreamDecision::NotRegistered <==> silent_for_ns is None,
{
}

/// As many mappings are counted as are enabled.
pub proof fn law_enabled_mappings_are_counted(mappings: &Vec<ChannelMapping>, r: usize)
    requires
        call_ensures(count_enabled, (mappings,), r),
    ensures
        r == mappings@.filter(|m: ChannelMapping| m.enabled).len(),
{
    lemma_enabled_count(mappings@);
}

} // verus!
