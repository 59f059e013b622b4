//! The rows that are kept from one run of the server to the next.

use crate::config::{ClientConfig, ClientConfigView};
use crate::rows::{views, Ranked};
use vstd::prelude::*;

verus! {

/// Which physical channel of the console is sent, as which channel, under which name and at
/// which place in the order.
#[derive(Debug)]
pub struct ChannelMapping {
    /// Counted from 1.
    pub physical_channel: u8,
    /// Counted from 1.
    pub logical_channel: u8,
    pub name: String,
    pub enabled: bool,
    pub order_index: u8,
}

/// One set of audio settings. The active one is in force.
#[derive(Debug)]
pub struct AudioRow {
    pub id: i64,
    pub sample_rate: u32,
    pub compression: String,
    pub jitter_interpolate: u32,
    pub jitter_drop: u32,
    pub active: bool,
}

/// A channel in the list of channels.
#[derive(Debug)]
pub struct ChannelRow {
    pub channel_id: u8,
    pub name: String,
    pub enabled: bool,
    pub order_index: i64,
}

/// What a client asked for. The rate and the compression stand beside the whole request, with
/// the default where the request leaves them out.
#[derive(Debug)]
pub struct ClientRow {
    pub client_ip: String,
    pub client_port: u16,
    pub sample_rate: u32,
    pub compression: String,
    pub config: ClientConfig,
}

/// What a client measured. The four measures are kept as the bits of their floating-point
/// numbers.
#[derive(Debug)]
pub struct QosRow {
    pub client_ip: String,
    pub client_port: u16,
    pub packets_received: u32,
    pub packets_expected: u32,
    pub packet_loss_rate: u64,
    pub jitter_ms: u64,
    pub latency_ms: u64,
    pub bandwidth_mbps: u64,
}

/// A note that a setting was changed.
#[derive(Debug)]
pub struct ConfigChange {
    pub change_type: String,
    pub reason: String,
    pub details: String,
}

/// All the rows, each list in the order in which the rows were written.
#[derive(Debug)]
pub struct Tables {
    pub audio: Vec<AudioRow>,
    pub channels: Vec<ChannelRow>,
    pub mappings: Vec<ChannelMapping>,
    pub clients: Vec<ClientRow>,
    pub qos: Vec<QosRow>,
    pub changes: Vec<ConfigChange>,
}

/// What `ChannelMapping` holds.
#[verifier::ext_equal]
pub struct ChannelMappingView {
    pub physical_channel: u8,
    pub logical_channel: u8,
    pub name: Seq<char>,
    pub enabled: bool,
    pub order_index: u8,
}

/// What `AudioRow` holds.
#[verifier::ext_equal]
pub struct AudioRowView {
    pub id: i64,
    pub sample_rate: u32,
    pub compression: Seq<char>,
    pub jitter_interpolate: u32,
    pub jitter_drop: u32,
    pub active: bool,
}

/// What `ChannelRow` holds.
#[verifier::ext_equal]
pub struct ChannelRowView {
    pub channel_id: u8,
    pub name: Seq<char>,
    pub enabled: bool,
    pub order_index: i64,
}

/// What `ClientRow` holds.
#[verifier::ext_equal]
pub struct ClientRowView {
    pub client_ip: Seq<char>,
    pub client_port: u16,
    pub sample_rate: u32,
    pub compression: Seq<char>,
    pub config: ClientConfigView,
}

/// What `QosRow` holds.
#[verifier::ext_equal]
pub struct QosRowView {
    pub client_ip: Seq<char>,
    pub client_port: u16,
    pub packets_received: u32,
    pub packets_expected: u32,
    pub packet_loss_rate: u64,
    pub jitter_ms: u64,
    pub latency_ms: u64,
    pub bandwidth_mbps: u64,
}

/// What `ConfigChange` holds.
#[verifier::ext_equal]
pub struct ConfigChangeView {
    pub change_type: Seq<char>,
    pub reason: Seq<char>,
    pub details: Seq<char>,
}

/// What `Tables` holds.
#[verifier::ext_equal]
pub struct TablesView {
    pub audio: Seq<AudioRowView>,
    pub channels: Seq<ChannelRowView>,
    pub mappings: Seq<ChannelMappingView>,
    pub clients: Seq<ClientRowView>,
    pub qos: Seq<QosRowView>,
    pub changes: Seq<ConfigChangeView>,
}

impl View for ChannelMapping {
    type V = ChannelMappingView;

    open spec fn view(&self) -> ChannelMappingView {
        ChannelMappingView {
            physical_channel: self.physical_channel,
            logical_channel: self.logical_channel,
            name: self.name@,
            enabled: self.enabled,
            order_index: self.order_index,
        }
    }
}

impl View for AudioRow {
    type V = AudioRowView;

    open spec fn view(&self) -> AudioRowView {
        AudioRowView {
            id: self.id,
            sample_rate: self.sample_rate,
            compression: self.compression@,
            jitter_interpolate: self.jitter_interpolate,
            jitter_drop: self.jitter_drop,
            active: self.active,
        }
    }
}

impl View for ChannelRow {
    type V = ChannelRowView;

    open spec fn view(&self) -> ChannelRowView {
        ChannelRowView {
            channel_id: self.channel_id,
            name: self.name@,
            enabled: self.enabled,
            order_index: self.order_index,
        }
    }
}

impl View for ClientRow {
    type V = ClientRowView;

    open spec fn view(&self) -> ClientRowView {
        ClientRowView {
            client_ip: self.client_ip@,
            client_port: self.client_port,
            sample_rate: self.sample_rate,
            compression: self.compression@,
            config: self.config@,
        }
    }
}

impl View for QosRow {
    type V = QosRowView;

    open spec fn view(&self) -> QosRowView {
        QosRowView {
            client_ip: self.client_ip@,
            client_port: self.client_port,
            packets_received: self.packets_received,
            packets_expected: self.packets_expected,
            packet_loss_rate: self.packet_loss_rate,
            jitter_ms: self.jitter_ms,
            latency_ms: self.latency_ms,
            bandwidth_mbps: self.bandwidth_mbps,
        }
    }
}

impl View for ConfigChange {
    type V = ConfigChangeView;

    open spec fn view(&self) -> ConfigChangeView {
        ConfigChangeView {
            change_type: self.change_type@,
            reason: self.reason@,
            details: self.details@,
        }
    }
}

impl View for Tables {
    type V = TablesView;

    open spec fn view(&self) -> TablesView {
        TablesView {
            audio: views(self.audio@),
            channels: views(self.channels@),
            mappings: views(self.mappings@),
            clients: views(self.clients@),
            qos: views(self.qos@),
            changes: views(self.changes@),
        }
    }
}

impl Clone for ChannelMapping {
    fn clone(&self) -> (r: Self)
        ensures
            r == *self,
    {
        ChannelMapping {
            physical_channel: self.physical_channel,
            logical_channel: self.logical_channel,
            name: self.name.clone(),
            enabled: self.enabled,
            order_index: self.order_index,
        }
    }
}

impl Clone for ChannelRow {
    fn clone(&self) -> (r: Self)
        ensures
            r == *self,
    {
        ChannelRow {
            channel_id: self.channel_id,
            name: self.name.clone(),
            enabled: self.enabled,
            order_index: self.order_index,
        }
    }
}

impl Ranked for ChannelMapping {
    open spec fn rank(v: ChannelMappingView) -> int {
        v.order_index as int
    }

    fn rank_value(&self) -> i64 {
        self.order_index as i64
    }
}

impl Ranked for ChannelRow {
    open spec fn rank(v: ChannelRowView) -> int {
        v.order_index as int
    }

    fn rank_value(&self) -> i64 {
        self.order_index
    }
}

/// The same mappings in a list of their own.
pub fn copy_mappings(mappings: &Vec<ChannelMapping>) -> (r: Vec<ChannelMapping>)
    ensures
        r@ == mappings@,
{
    let mut out: Vec<ChannelMapping> = Vec::new();
    let mut i: usize = 0;
    while i < mappings.len()
        invariant
            i <= mappings.len(),
            out@ == mappings@.take(i as int),
        decreases mappings.len() - i,
    {
        out.push(mappings[i].clone());
        assert(mappings@.take(i + 1) == mappings@.take(i as int).push(mappings@[i as int]));
        i += 1;
    }
    assert(mappings@.take(i as int) == mappings@);
    out
}

/// Mappings that hold the same are for the same channel, sent as the same one, under the same name, at
/// the same place, and both sent or both not.
pub proof fn law_same_mappings(a: ChannelMapping, b: ChannelMapping)
    requires
        a@ == b@,
    ensures
        a.physical_channel == b.physical_channel,
        a.logical_channel == b.logical_channel,
        a.name@ == b.name@,
        a.enabled == b.enabled,
        a.order_index == b.order_index,
{
}

} // verus!
