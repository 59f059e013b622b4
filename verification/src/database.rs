//! The server's stored settings: audio settings, channels, channel mappings, client requests,
//! and the records of measurements and changes.

use crate::config::{
    default_channel_name, default_name, ChannelConfig, ChannelConfigView, ClientConfig,
    ClientConfigView, Settings, SettingsView, DEFAULT_SAMPLE_RATE, USB_CHANNELS,
};
use crate::rows::{
    first_where, in_order, lemma_filter_member, lemma_filter_take, lemma_first_where,
    lists_in_order, put_in_order, views,
};
use crate::tables::{
    AudioRow, AudioRowView, ChannelMapping, ChannelMappingView, ChannelRow, ChannelRowView,
    ClientRow, ClientRowView, ConfigChange, ConfigChangeView, QosRow, QosRowView, Tables,
    TablesView,
};
use vstd::prelude::*;

verus! {

/// The jitter in milliseconds from which missing audio is interpolated, where nothing was set.
pub const DEFAULT_JITTER_INTERPOLATE: u32 = 100;

/// The jitter in milliseconds from which packets are dropped, where nothing was set.
pub const DEFAULT_JITTER_DROP: u32 = 200;

/// Whether the audio rows stand in the order of their numbers, no two of which are the same.
pub open spec fn audio_ids_rise(rows: Seq<AudioRowView>) -> bool {
    forall|i: int, j: int|
        0 <= i < j < rows.len() ==> (#[trigger] rows[i]).id < (#[trigger] rows[j]).id
}

/// Whether no two mappings are for the same physical channel.
pub open spec fn channels_differ(rows: Seq<ChannelMappingView>) -> bool {
    forall|i: int, j: int|
        0 <= i < j < rows.len() ==> (#[trigger] rows[i]).physical_channel != (
        #[trigger] rows[j]).physical_channel
}

/// Whether no two rows are for the same client.
pub open spec fn clients_differ(rows: Seq<ClientRowView>) -> bool {
    forall|i: int, j: int|
        0 <= i < j < rows.len() ==> (#[trigger] rows[i]).client_ip != (
        #[trigger] rows[j]).client_ip || rows[i].client_port != rows[j].client_port
}

/// Whether the rows keep the uniqueness that the tables ask for.
pub open spec fn is_consistent(t: TablesView) -> bool {
    audio_ids_rise(t.audio) && channels_differ(t.mappings) && clients_differ(t.clients)
}

/// Why stored rows cannot be used.
#[derive(Debug, Clone, Copy, PartialEq, Eq, Structural)]
pub enum Inconsistency {
    AudioIds,
    PhysicalChannel,
    ClientAddress,
}

pub open spec fn is_active() -> spec_fn(AudioRowView) -> bool {
    |r: AudioRowView| r.active
}

pub open spec fn has_id(id: i64) -> spec_fn(AudioRowView) -> bool {
    |r: AudioRowView| r.id == id
}

pub open spec fn is_listed() -> spec_fn(ChannelRowView) -> bool {
    |r: ChannelRowView| r.enabled
}

pub open spec fn is_channel(channel_id: u8) -> spec_fn(ChannelRowView) -> bool {
    |r: ChannelRowView| r.channel_id == channel_id
}

pub open spec fn is_enabled() -> spec_fn(ChannelMappingView) -> bool {
    |m: ChannelMappingView| m.enabled
}

pub open spec fn is_for(physical_channel: u8) -> spec_fn(ChannelMappingView) -> bool {
    |m: ChannelMappingView| m.physical_channel == physical_channel
}

pub open spec fn is_not_for(physical_channel: u8) -> spec_fn(ChannelMappingView) -> bool {
    |m: ChannelMappingView| m.physical_channel != physical_channel
}

pub open spec fn is_sent_as(logical_channel: u8) -> spec_fn(ChannelMappingView) -> bool {
    |m: ChannelMappingView| m.logical_channel == logical_channel && m.enabled
}

pub open spec fn is_from(ip: Seq<char>, port: u16) -> spec_fn(ClientRowView) -> bool {
    |r: ClientRowView| r.client_ip == ip && r.client_port == port
}

pub open spec fn is_not_from(ip: Seq<char>, port: u16) -> spec_fn(ClientRowView) -> bool {
    |r: ClientRowView| r.client_ip != ip || r.client_port != port
}

/// The audio settings of a new server.
pub open spec fn first_audio_row() -> AudioRowView {
    AudioRowView {
        id: 1,
        sample_rate: DEFAULT_SAMPLE_RATE,
        compression: "none"@,
        jitter_interpolate: DEFAULT_JITTER_INTERPOLATE,
        jitter_drop: DEFAULT_JITTER_DROP,
        active: true,
    }
}

/// How many audio rows stand before the place of the row with number 1.
pub open spec fn first_audio_place(rows: Seq<AudioRowView>) -> nat
    decreases rows.len(),
{
    if rows.len() == 0 || rows[0].id >= 1 {
        0
    } else {
        1 + first_audio_place(rows.skip(1))
    }
}

/// The audio rows with those of a new server in place.
pub open spec fn seeded_audio(rows: Seq<AudioRowView>) -> Seq<AudioRowView> {
    if first_where(rows, has_id(1)) is Some {
        rows
    } else {
        rows.insert(first_audio_place(rows) as int, first_audio_row())
    }
}

/// The row of a channel.
pub open spec fn channel_of(rows: Seq<ChannelRowView>, channel_id: u8) -> Option<ChannelRowView> {
    first_where(rows, is_channel(channel_id))
}

/// The row of a channel that nobody changed: shown, under its default name.
pub open spec fn default_channel_row(n: u8) -> ChannelRowView {
    ChannelRowView {
        channel_id: n,
        name: default_name(n as nat),
        enabled: true,
        order_index: n as i64,
    }
}

/// The channels, with default ones added for those of the channels 1 to `n` that had no row.
pub open spec fn seeded_channels(rows: Seq<ChannelRowView>, n: u8) -> Seq<ChannelRowView>
    decreases n,
{
    if n == 0 {
        rows
    } else {
        let before = seeded_channels(rows, (n - 1) as u8);
        if channel_of(before, n) is Some {
            before
        } else {
            before.push(default_channel_row(n))
        }
    }
}

/// The mapping of a channel that nobody changed: to itself, under its default name.
pub open spec fn default_mapping(n: u8) -> ChannelMappingView {
    ChannelMappingView {
        physical_channel: n,
        logical_channel: n,
        name: default_name(n as nat),
        enabled: true,
        order_index: n,
    }
}

/// The mappings, with default ones added for those of the channels 1 to `n` that had none.
pub open spec fn seeded_mappings(rows: Seq<ChannelMappingView>, n: u8) -> Seq<ChannelMappingView>
    decreases n,
{
    if n == 0 {
        rows
    } else {
        let before = seeded_mappings(rows, (n - 1) as u8);
        if mapping_of(before, n) is Some {
            before
        } else {
            before.push(default_mapping(n))
        }
    }
}

/// The tables with the rows of a new server in place. Audio settings, channels and mappings that
/// are there stay as they are.
pub open spec fn seeded(t: TablesView) -> TablesView {
    TablesView {
        audio: seeded_audio(t.audio),
        channels: seeded_channels(t.channels, USB_CHANNELS),
        mappings: seeded_mappings(t.mappings, USB_CHANNELS),
        ..t
    }
}

/// The mapping of a physical channel.
pub open spec fn mapping_of(rows: Seq<ChannelMappingView>, physical_channel: u8) -> Option<
    ChannelMappingView,
> {
    first_where(rows, is_for(physical_channel))
}

/// The mappings without that of one physical channel.
pub open spec fn without_mapping(rows: Seq<ChannelMappingView>, physical_channel: u8) -> Seq<
    ChannelMappingView,
> {
    rows.filter(is_not_for(physical_channel))
}

/// The mappings with `m` as that of its physical channel.
pub open spec fn with_mapping(rows: Seq<ChannelMappingView>, m: ChannelMappingView) -> Seq<
    ChannelMappingView,
> {
    without_mapping(rows, m.physical_channel).push(m)
}

/// The place in the order that `list` gives to a physical channel: its last place in `list`,
/// counted from 1, or `otherwise` where it does not occur.
pub open spec fn place_in(list: Seq<ChannelMappingView>, physical_channel: u8, otherwise: u8) -> u8
    decreases list.len(),
{
    if list.len() == 0 {
        otherwise
    } else if list.last().physical_channel == physical_channel {
        list.len() as u8
    } else {
        place_in(list.drop_last(), physical_channel, otherwise)
    }
}

/// The mappings in the places that `list` gives them.
pub open spec fn reordered(
    rows: Seq<ChannelMappingView>,
    list: Seq<ChannelMappingView>,
) -> Seq<ChannelMappingView> {
    Seq::new(
        rows.len(),
        |i: int|
            ChannelMappingView {
                order_index: place_in(list, rows[i].physical_channel, rows[i].order_index),
                ..rows[i]
            },
    )
}

/// The mappings that are sent, in their order.
pub open spec fn active_mappings(rows: Seq<ChannelMappingView>) -> Seq<ChannelMappingView> {
    in_order::<ChannelMapping>(rows.filter(is_enabled()))
}

/// As which channel a physical channel is sent.
pub open spec fn logical_of(rows: Seq<ChannelMappingView>, physical_channel: u8) -> Option<u8> {
    match mapping_of(rows, physical_channel) {
        Some(m) => if m.enabled {
            Some(m.logical_channel)
        } else {
            None
        },
        None => None,
    }
}

/// Which physical channel is sent as a logical one.
pub open spec fn physical_of(rows: Seq<ChannelMappingView>, logical_channel: u8) -> Option<u8> {
    match first_where(rows, is_sent_as(logical_channel)) {
        Some(m) => Some(m.physical_channel),
        None => None,
    }
}

/// The sample rate and the compression in force.
pub open spec fn audio_config(rows: Seq<AudioRowView>) -> (u32, Seq<char>) {
    match first_where(rows, is_active()) {
        Some(r) => (r.sample_rate, r.compression),
        None => (DEFAULT_SAMPLE_RATE, "none"@),
    }
}

/// The jitter thresholds in force.
pub open spec fn jitter_thresholds(rows: Seq<AudioRowView>) -> (u32, u32) {
    match first_where(rows, is_active()) {
        Some(r) => (r.jitter_interpolate, r.jitter_drop),
        None => (DEFAULT_JITTER_INTERPOLATE, DEFAULT_JITTER_DROP),
    }
}

/// The number that the next audio row gets.
pub open spec fn next_audio_id(rows: Seq<AudioRowView>) -> int {
    if rows.len() == 0 {
        1
    } else {
        rows.last().id + 1
    }
}

/// The audio rows after a change of the audio settings: a new row alone is active, with the jitter
/// thresholds that were in force.
pub open spec fn with_audio_config(
    rows: Seq<AudioRowView>,
    sample_rate: u32,
    compression: Seq<char>,
) -> Seq<AudioRowView> {
    Seq::new(rows.len(), |i: int| AudioRowView { active: false, ..rows[i] }).push(
        AudioRowView {
            id: next_audio_id(rows) as i64,
            sample_rate,
            compression,
            jitter_interpolate: jitter_thresholds(rows).0,
            jitter_drop: jitter_thresholds(rows).1,
            active: true,
        },
    )
}

/// The audio rows after a change of the jitter thresholds in force.
pub open spec fn with_jitter_thresholds(
    rows: Seq<AudioRowView>,
    interpolate: u32,
    drop: u32,
) -> Seq<AudioRowView> {
    Seq::new(
        rows.len(),
        |i: int|
            if rows[i].active {
                AudioRowView { jitter_interpolate: interpolate, jitter_drop: drop, ..rows[i] }
            } else {
                rows[i]
            },
    )
}

/// The channels that clients are shown, in their order.
pub open spec fn listed_channels(rows: Seq<ChannelRowView>) -> Seq<ChannelConfigView> {
    let listed = in_order::<ChannelRow>(rows.filter(is_listed()));
    Seq::new(
        listed.len(),
        |i: int| ChannelConfigView { id: listed[i].channel_id, name: listed[i].name },
    )
}

/// The channels after one was renamed and shown or hidden.
pub open spec fn with_channel_config(
    rows: Seq<ChannelRowView>,
    channel_id: u8,
    name: Seq<char>,
    enabled: bool,
) -> Seq<ChannelRowView> {
    Seq::new(
        rows.len(),
        |i: int|
            if rows[i].channel_id == channel_id {
                ChannelRowView { name, enabled, ..rows[i] }
            } else {
                rows[i]
            },
    )
}

/// The row that keeps a client's request.
pub open spec fn client_row(ip: Seq<char>, port: u16, config: ClientConfigView) -> ClientRowView {
    ClientRowView {
        client_ip: ip,
        client_port: port,
        sample_rate: match config.sample_rate {
            Some(rate) => rate,
            None => DEFAULT_SAMPLE_RATE,
        },
        compression: match config.compression {
            Some(c) => c,
            None => "none"@,
        },
        config,
    }
}

/// The requests with `config` as that of one client.
pub open spec fn with_client_config(
    rows: Seq<ClientRowView>,
    ip: Seq<char>,
    port: u16,
    config: ClientConfigView,
) -> Seq<ClientRowView> {
    rows.filter(is_not_from(ip, port)).push(client_row(ip, port, config))
}

/// What a client asked for.
pub open spec fn client_config_of(rows: Seq<ClientRowView>, ip: Seq<char>, port: u16) -> Option<
    ClientConfigView,
> {
    match first_where(rows, is_from(ip, port)) {
        Some(r) => Some(r.config),
        None => None,
    }
}

/// The settings that the rows amount to.
pub open spec fn settings_of(t: TablesView) -> SettingsView {
    SettingsView {
        channels: listed_channels(t.channels),
        compression: audio_config(t.audio).1,
        sample_rate: audio_config(t.audio).0,
    }
}

/// The stored settings, consistent at all times.
pub struct Database {
    tables: Tables,
}

impl View for Database {
    type V = TablesView;

    closed spec fn view(&self) -> TablesView {
        self.tables@
    }
}

impl Database {
    /// Whether the rows keep the uniqueness that the tables ask for.
    pub open spec fn wf(&self) -> bool {
        is_consistent(self@)
    }

    /// Takes up stored rows, if they are consistent.
    pub fn load(tables: Tables) -> (r: Result<Database, Inconsistency>)
        ensures
            match r {
                Ok(db) => db.wf() && db@ == tables@,
                Err(Inconsistency::AudioIds) => !audio_ids_rise(tables@.audio),
                Err(Inconsistency::PhysicalChannel) => audio_ids_rise(tables@.audio)
                    && !channels_differ(tables@.mappings),
                Err(Inconsistency::ClientAddress) => audio_ids_rise(tables@.audio)
                    && channels_differ(tables@.mappings) && !clients_differ(tables@.clients),
            },
    {
        if !check_audio_ids(&tables.audio) {
            return Err(Inconsistency::AudioIds);
        }
        if !check_channels(&tables.mappings) {
            return Err(Inconsistency::PhysicalChannel);
        }
        if !check_clients(&tables.clients) {
            return Err(Inconsistency::ClientAddress);
        }
        Ok(Database { tables })
    }

    /// Hands the rows out again.
    pub fn into_tables(self) -> (r: Tables)
        ensures
            r@ == self@,
    {
        self.tables
    }

    /// Takes up stored rows and puts those of a new server in place.
    pub fn new(tables: Tables) -> (r: Result<Database, Inconsistency>)
        ensures
            match r {
                Ok(db) => db.wf() && db@ == seeded(tables@),
                Err(Inconsistency::AudioIds) => !audio_ids_rise(tables@.audio),
                Err(Inconsistency::PhysicalChannel) => audio_ids_rise(tables@.audio)
                    && !channels_differ(tables@.mappings),
                Err(Inconsistency::ClientAddress) => audio_ids_rise(tables@.audio)
                    && channels_differ(tables@.mappings) && !clients_differ(tables@.clients),
            },
    {
        match Database::load(tables) {
            Ok(mut db) => {
                db.init_tables();
                Ok(db)
            },
            Err(e) => Err(e),
        }
    }

    /// Puts the rows of a new server in place.
    pub fn init_tables(&mut self)
        requires
            old(self).wf(),
        ensures
            final(self).wf(),
            final(self)@ == seeded(old(self)@),
    {
        self.seed_audio();
        self.seed_channels();
        self.seed_mappings();
        assert(self@ =~= seeded(old(self)@));
    }

    fn seed_audio(&mut self)
        requires
            old(self).wf(),
        ensures
            final(self).wf(),
            final(self)@ == (TablesView { audio: seeded_audio(old(self)@.audio), ..old(self)@ }),
    {
        let ghost before = self@;
        let mut i: usize = 0;
        proof {
            assert(before.audio.skip(0) =~= before.audio);
        }
        while i < self.tables.audio.len()
            invariant
                *self == *old(self),
                self.wf(),
                self@ == before,
                i <= self.tables.audio.len(),
                first_where(before.audio, has_id(1)) == first_where(
                    before.audio.skip(i as int),
                    has_id(1),
                ),
            decreases self.tables.audio.len() - i,
        {
            assert(before.audio[i as int] == self.tables.audio@[i as int]@);
            assert(before.audio.skip(i as int)[0] == before.audio[i as int]);
            assert(before.audio.skip(i as int).skip(1) =~= before.audio.skip(i + 1));
            if self.tables.audio[i].id == 1 {
                return;
            }
            i += 1;
        }
        let mut place: usize = 0;
        while place < self.tables.audio.len() && self.tables.audio[place].id < 1
            invariant
                *self == *old(self),
                self@ == before,
                place <= self.tables.audio.len(),
                first_audio_place(before.audio) == place + first_audio_place(
                    before.audio.skip(place as int),
                ),
            decreases self.tables.audio.len() - place,
        {
            assert(before.audio[place as int] == self.tables.audio@[place as int]@);
            assert(before.audio.skip(place as int)[0] == before.audio[place as int]);
            assert(before.audio.skip(place as int).skip(1) =~= before.audio.skip(place + 1));
            place += 1;
        }
        proof {
            if place < before.audio.len() {
                assert(before.audio[place as int] == self.tables.audio@[place as int]@);
                assert(before.audio.skip(place as int)[0] == before.audio[place as int]);
            }
            lemma_first_where(before.audio, has_id(1));
        }
        let row = AudioRow {
            id: 1,
            sample_rate: DEFAULT_SAMPLE_RATE,
            compression: "none".to_owned(),
            jitter_interpolate: DEFAULT_JITTER_INTERPOLATE,
            jitter_drop: DEFAULT_JITTER_DROP,
            active: true,
        };
        let ghost held = self.tables.audio@;
        self.tables.audio.insert(place, row);
        proof {
            let now = self@.audio;
            assert(now =~= before.audio.insert(place as int, first_audio_row())) by {
                assert forall|k: int| 0 <= k < now.len() implies #[trigger] now[k]
                    == before.audio.insert(place as int, first_audio_row())[k] by {
                    if k < place {
                        assert(self.tables.audio@[k] == held[k]);
                    } else if k > place {
                        assert(self.tables.audio@[k] == held[k - 1]);
                    }
                }
            }
            assert(self@ =~= TablesView { audio: seeded_audio(before.audio), ..before });
            lemma_seeded_audio_rises(before.audio);
        }
    }

    fn seed_channels(&mut self)
        requires
            old(self).wf(),
        ensures
            final(self).wf(),
            final(self)@ == (TablesView {
                channels: seeded_channels(old(self)@.channels, USB_CHANNELS),
                ..old(self)@
            }),
    {
        let ghost before = self@;
        let mut n: u8 = 0;
        assert(self@ =~= TablesView { channels: seeded_channels(before.channels, n), ..before });
        while n < USB_CHANNELS
            invariant
                n <= USB_CHANNELS,
                self.wf(),
                self@ == (TablesView { channels: seeded_channels(before.channels, n), ..before }),
            decreases USB_CHANNELS - n,
        {
            n += 1;
            if !self.has_channel(n) {
                let row = ChannelRow {
                    channel_id: n,
                    name: default_channel_name(n),
                    enabled: true,
                    order_index: n as i64,
                };
                let ghost held = self.tables.channels@;
                self.tables.channels.push(row);
                proof {
                    assert(views(held.push(row)) =~= views(held).push(row@));
                    assert(row@ == default_channel_row(n));
                }
            }
            assert(self@ =~= TablesView {
                channels: seeded_channels(before.channels, n),
                ..before
            });
        }
    }

    /// Whether a channel has a row.
    fn has_channel(&self, channel_id: u8) -> (r: bool)
        ensures
            r == channel_of(self@.channels, channel_id) is Some,
    {
        let ghost rows = self@.channels;
        let mut i: usize = 0;
        assert(rows.skip(0) =~= rows);
        while i < self.tables.channels.len()
            invariant
                rows == self@.channels,
                i <= self.tables.channels.len(),
                channel_of(rows, channel_id) == channel_of(rows.skip(i as int), channel_id),
            decreases self.tables.channels.len() - i,
        {
            assert(rows[i as int] == self.tables.channels@[i as int]@);
            assert(rows.skip(i as int)[0] == rows[i as int]);
            assert(rows.skip(i as int).skip(1) =~= rows.skip(i + 1));
            if self.tables.channels[i].channel_id == channel_id {
                return true;
            }
            i += 1;
        }
        false
    }

    fn seed_mappings(&mut self)
        requires
            old(self).wf(),
        ensures
            final(self).wf(),
            final(self)@ == (TablesView {
                mappings: seeded_mappings(old(self)@.mappings, USB_CHANNELS),
                ..old(self)@
            }),
    {
        let ghost before = self@;
        let mut n: u8 = 0;
        assert(self@ =~= TablesView { mappings: seeded_mappings(before.mappings, n), ..before });
        while n < USB_CHANNELS
            invariant
                n <= USB_CHANNELS,
                self.wf(),
                self@ == (TablesView { mappings: seeded_mappings(before.mappings, n), ..before }),
            decreases USB_CHANNELS - n,
        {
            n += 1;
            let found = self.find_mapping(n);
            if found.is_none() {
                let row = ChannelMapping {
                    physical_channel: n,
                    logical_channel: n,
                    name: default_channel_name(n),
                    enabled: true,
                    order_index: n,
                };
                let ghost held = self.tables.mappings@;
                let ghost prev = self@;
                self.tables.mappings.push(row);
                proof {
                    assert(views(held.push(row)) =~= views(held).push(row@));
                    lemma_first_where(prev.mappings, is_for(n));
                    lemma_push_differs(prev.mappings, row@);
                    assert(row@ == default_mapping(n));
                    assert(self@ =~= TablesView {
                        mappings: seeded_mappings(before.mappings, n),
                        ..before
                    });
                }
            } else {
                assert(self@ =~= TablesView {
                    mappings: seeded_mappings(before.mappings, n),
                    ..before
                });
            }
        }
    }

    /// The index of the mapping of a physical channel.
    fn find_mapping(&self, physical_channel: u8) -> (r: Option<usize>)
        ensures
            match r {
                Some(i) => i < self@.mappings.len() && mapping_of(
                    self@.mappings,
                    physical_channel,
                ) == Some(self@.mappings[i as int]),
                None => mapping_of(self@.mappings, physical_channel) is None,
            },
    {
        let ghost rows = self@.mappings;
        let mut i: usize = 0;
        assert(rows.skip(0) =~= rows);
        while i < self.tables.mappings.len()
            invariant
                rows == self@.mappings,
                i <= self.tables.mappings.len(),
                mapping_of(rows, physical_channel) == mapping_of(
                    rows.skip(i as int),
                    physical_channel,
                ),
            decreases self.tables.mappings.len() - i,
        {
            assert(rows[i as int] == self.tables.mappings@[i as int]@);
            assert(rows.skip(i as int)[0] == rows[i as int]);
            assert(rows.skip(i as int).skip(1) =~= rows.skip(i + 1));
            if self.tables.mappings[i].physical_channel == physical_channel {
                return Some(i);
            }
            i += 1;
        }
        None
    }
}

impl Database {
    /// The sample rate and the compression in force.
    pub fn get_audio_config(&self) -> (r: (u32, String))
        ensures
            (r.0, r.1@) == audio_config(self@.audio),
    {
        match self.find_active() {
            Some(i) => {
                assert(self@.audio[i as int] == self.tables.audio@[i as int]@);
                (self.tables.audio[i].sample_rate, self.tables.audio[i].compression.clone())
            },
            None => (DEFAULT_SAMPLE_RATE, "none".to_owned()),
        }
    }

    /// Puts another sample rate and compression in force, with the jitter thresholds as they are.
    pub fn update_audio_config(&mut self, sample_rate: u32, compression: &str)
        requires
            old(self).wf(),
            next_audio_id(old(self)@.audio) <= i64::MAX,
        ensures
            final(self).wf(),
            final(self)@ == (TablesView {
                audio: with_audio_config(old(self)@.audio, sample_rate, compression@),
                ..old(self)@
            }),
    {
        let ghost before = self@;
        let (jitter_interpolate, jitter_drop): (u32, u32) = self.get_jitter_thresholds();
        let mut id: i64 = 1;
        let mut i: usize = 0;
        while i < self.tables.audio.len()
            invariant
                i <= self.tables.audio.len(),
                audio_ids_rise(before.audio),
                next_audio_id(before.audio) <= i64::MAX,
                self@ == (TablesView { audio: self@.audio, ..before }),
                self@.audio.len() == before.audio.len(),
                i == 0 ==> id == 1,
                i > 0 ==> id == before.audio[i - 1].id + 1,
                forall|k: int|
                    0 <= k < i ==> #[trigger] self@.audio[k] == (AudioRowView {
                        active: false,
                        ..before.audio[k]
                    }),
                forall|k: int|
                    i <= k < before.audio.len() ==> #[trigger] self@.audio[k] == before.audio[k],
            decreases self.tables.audio.len() - i,
        {
            let ghost prev = self@;
            let ghost held = self.tables.audio@;
            assert(prev.audio[i as int] == held[i as int]@);
            assert(before.audio[i as int].id <= before.audio.last().id);
            id = self.tables.audio[i].id + 1;
            self.tables.audio[i].active = false;
            proof {
                assert forall|k: int| 0 <= k < held.len() && k != i implies #[trigger] self@.audio[k]
                    == prev.audio[k] by {
                    assert(self.tables.audio@[k] == held[k]);
                }
                assert(self@.audio[i as int] == self.tables.audio@[i as int]@);
            }
            i += 1;
        }
        let row = AudioRow {
            id,
            sample_rate,
            compression: compression.to_owned(),
            jitter_interpolate,
            jitter_drop,
            active: true,
        };
        let ghost held = self.tables.audio@;
        let ghost prev = self@;
        self.tables.audio.push(row);
        proof {
            assert(views(held.push(row)) =~= views(held).push(row@));
            assert(self@.audio =~= with_audio_config(before.audio, sample_rate, compression@));
            let now = self@.audio;
            assert forall|a: int, b: int| 0 <= a < b < now.len() implies (#[trigger] now[a]).id < (
            #[trigger] now[b]).id by {
                assert(now[a].id == before.audio[a].id);
                if b < before.audio.len() {
                    assert(now[b].id == before.audio[b].id);
                } else if a < before.audio.len() - 1 {
                    assert(before.audio[a].id < before.audio[before.audio.len() - 1].id);
                }
            }
        }
    }

    /// The channels that clients are shown, in their order.
    pub fn get_channel_configs(&self) -> (r: Vec<ChannelConfig>)
        ensures
            views(r@) == listed_channels(self@.channels),
    {
        let ghost rows = self@.channels;
        let mut listed: Vec<ChannelRow> = Vec::new();
        let mut i: usize = 0;
        proof {
            reveal(Seq::filter);
            assert(views(listed@) =~= rows.take(0).filter(is_listed()));
        }
        while i < self.tables.channels.len()
            invariant
                i <= self.tables.channels.len(),
                rows == self@.channels,
                views(listed@) == rows.take(i as int).filter(is_listed()),
            decreases self.tables.channels.len() - i,
        {
            assert(rows[i as int] == self.tables.channels@[i as int]@);
            proof {
                lemma_filter_take(rows, is_listed(), i as int);
            }
            if self.tables.channels[i].enabled {
                let row = self.tables.channels[i].clone();
                let ghost held = listed@;
                listed.push(row);
                assert(views(listed@) =~= views(held).push(row@));
            }
            i += 1;
        }
        assert(rows.take(i as int) =~= rows);
        let ordered = put_in_order(listed);
        let ghost all = in_order::<ChannelRow>(rows.filter(is_listed()));
        let mut out: Vec<ChannelConfig> = Vec::new();
        let mut j: usize = 0;
        while j < ordered.len()
            invariant
                j <= ordered.len(),
                all == views(ordered@),
                out@.len() == j,
                forall|k: int|
                    0 <= k < j ==> (#[trigger] out@[k])@ == (ChannelConfigView {
                        id: all[k].channel_id,
                        name: all[k].name,
                    }),
            decreases ordered.len() - j,
        {
            out.push(
                ChannelConfig { id: ordered[j].channel_id, name: ordered[j].name.clone() },
            );
            j += 1;
        }
        assert(views(out@) =~= listed_channels(rows));
        out
    }

    /// Renames a channel and shows or hides it. Does nothing where there is no such channel.
    pub fn update_channel_config(&mut self, channel_id: u8, name: &str, enabled: bool)
        requires
            old(self).wf(),
        ensures
            final(self).wf(),
            final(self)@ == (TablesView {
                channels: with_channel_config(old(self)@.channels, channel_id, name@, enabled),
                ..old(self)@
            }),
    {
        let ghost before = self@;
        let ghost goal = with_channel_config(before.channels, channel_id, name@, enabled);
        let mut i: usize = 0;
        while i < self.tables.channels.len()
            invariant
                i <= self.tables.channels.len(),
                goal == with_channel_config(before.channels, channel_id, name@, enabled),
                self@ == (TablesView { channels: self@.channels, ..before }),
                self@.channels.len() == before.channels.len(),
                forall|k: int| 0 <= k < i ==> #[trigger] self@.channels[k] == goal[k],
                forall|k: int|
                    i <= k < before.channels.len() ==> #[trigger] self@.channels[k]
                        == before.channels[k],
            decreases self.tables.channels.len() - i,
        {
            let ghost prev = self@;
            let ghost held = self.tables.channels@;
            assert(prev.channels[i as int] == held[i as int]@);
            if self.tables.channels[i].channel_id == channel_id {
                self.tables.channels[i].name = name.to_owned();
                self.tables.channels[i].enabled = enabled;
            }
            proof {
                assert forall|k: int| 0 <= k < held.len() && k != i implies #[trigger] self@.channels[k]
                    == prev.channels[k] by {
                    assert(self.tables.channels@[k] == held[k]);
                }
                assert(self@.channels[i as int] == self.tables.channels@[i as int]@);
                assert(self@.channels[i as int] =~= goal[i as int]);
            }
            i += 1;
        }
        assert(self@.channels =~= goal);
    }

    /// The mappings that are sent, in their order.
    pub fn get_channel_mappings(&self) -> (r: Vec<ChannelMapping>)
        ensures
            views(r@) == active_mappings(self@.mappings),
            lists_in_order::<ChannelMapping>(
                views(r@),
                self@.mappings.filter(is_enabled()),
            ),
    {
        self.get_active_channel_mappings()
    }

    /// The mappings that are sent, in their order.
    pub fn get_active_channel_mappings(&self) -> (r: Vec<ChannelMapping>)
        ensures
            views(r@) == active_mappings(self@.mappings),
            lists_in_order::<ChannelMapping>(
                views(r@),
                self@.mappings.filter(is_enabled()),
            ),
    {
        let ghost rows = self@.mappings;
        let mut enabled: Vec<ChannelMapping> = Vec::new();
        let mut i: usize = 0;
        proof {
            reveal(Seq::filter);
            assert(views(enabled@) =~= rows.take(0).filter(is_enabled()));
        }
        while i < self.tables.mappings.len()
            invariant
                i <= self.tables.mappings.len(),
                rows == self@.mappings,
                views(enabled@) == rows.take(i as int).filter(is_enabled()),
            decreases self.tables.mappings.len() - i,
        {
            assert(rows[i as int] == self.tables.mappings@[i as int]@);
            proof {
                lemma_filter_take(rows, is_enabled(), i as int);
            }
            if self.tables.mappings[i].enabled {
                let row = self.tables.mappings[i].clone();
                let ghost held = enabled@;
                enabled.push(row);
                assert(views(enabled@) =~= views(held).push(row@));
            }
            i += 1;
        }
        assert(rows.take(i as int) =~= rows);
        put_in_order(enabled)
    }

    /// The mapping of a physical channel, sent or not.
    pub fn get_channel_mapping(&self, physical_channel: u8) -> (r: Option<ChannelMapping>)
        ensures
            match r {
                Some(m) => mapping_of(self@.mappings, physical_channel) == Some(m@),
                None => mapping_of(self@.mappings, physical_channel) is None,
            },
    {
        match self.find_mapping(physical_channel) {
            Some(i) => {
                assert(self@.mappings[i as int] == self.tables.mappings@[i as int]@);
                Some(self.tables.mappings[i].clone())
            },
            None => None,
        }
    }

    /// The mappings but for that of one physical channel.
    fn mappings_without(&self, physical_channel: u8) -> (r: Vec<ChannelMapping>)
        ensures
            views(r@) == without_mapping(self@.mappings, physical_channel),
    {
        let ghost rows = self@.mappings;
        let ghost kept_by = is_not_for(physical_channel);
        let mut kept: Vec<ChannelMapping> = Vec::new();
        let mut i: usize = 0;
        proof {
            reveal(Seq::filter);
            assert(views(kept@) =~= rows.take(0).filter(kept_by));
        }
        while i < self.tables.mappings.len()
            invariant
                i <= self.tables.mappings.len(),
                rows == self@.mappings,
                kept_by == is_not_for(physical_channel),
                views(kept@) == rows.take(i as int).filter(kept_by),
            decreases self.tables.mappings.len() - i,
        {
            assert(rows[i as int] == self.tables.mappings@[i as int]@);
            proof {
                lemma_filter_take(rows, kept_by, i as int);
            }
            if self.tables.mappings[i].physical_channel != physical_channel {
                let row = self.tables.mappings[i].clone();
                let ghost held = kept@;
                kept.push(row);
                assert(views(kept@) =~= views(held).push(row@));
            }
            i += 1;
        }
        assert(rows.take(i as int) =~= rows);
        kept
    }

    /// Writes the mapping of a physical channel, in place of the one that it had.
    pub fn update_channel_mapping(&mut self, mapping: &ChannelMapping)
        requires
            old(self).wf(),
        ensures
            final(self).wf(),
            final(self)@ == (TablesView {
                mappings: with_mapping(old(self)@.mappings, mapping@),
                ..old(self)@
            }),
    {
        let ghost before = self@;
        let mut kept = self.mappings_without(mapping.physical_channel);
        let ghost held = kept@;
        let row = mapping.clone();
        kept.push(row);
        proof {
            assert(views(held.push(row)) =~= views(held).push(row@));
            lemma_without_differs(before.mappings, mapping.physical_channel);
            lemma_push_differs(views(held), row@);
        }
        self.tables.mappings = kept;
        assert(self@ =~= TablesView {
            mappings: with_mapping(before.mappings, mapping@),
            ..before
        });
    }

    /// Takes the mapping of a physical channel away, where there is one.
    pub fn delete_channel_mapping(&mut self, physical_channel: u8)
        requires
            old(self).wf(),
        ensures
            final(self).wf(),
            final(self)@ == (TablesView {
                mappings: without_mapping(old(self)@.mappings, physical_channel),
                ..old(self)@
            }),
    {
        let ghost before = self@;
        let kept = self.mappings_without(physical_channel);
        proof {
            lemma_without_differs(before.mappings, physical_channel);
        }
        self.tables.mappings = kept;
        assert(self@ =~= TablesView {
            mappings: without_mapping(before.mappings, physical_channel),
            ..before
        });
    }

    /// Puts the mappings in the order of `mappings`, which names physical channels. Mappings that
    /// it does not name keep their place.
    pub fn reorder_channel_mappings(&mut self, mappings: &Vec<ChannelMapping>)
        requires
            old(self).wf(),
            mappings@.len() <= 255,
        ensures
            final(self).wf(),
            final(self)@ == (TablesView {
                mappings: reordered(old(self)@.mappings, views(mappings@)),
                ..old(self)@
            }),
    {
        let ghost before = self@;
        let ghost list = views(mappings@);
        let mut index: usize = 0;
        proof {
            assert(list.take(0) =~= Seq::empty());
            assert(before.mappings =~= reordered(before.mappings, list.take(0)));
        }
        while index < mappings.len()
            invariant
                index <= mappings.len(),
                mappings@.len() <= 255,
                list == views(mappings@),
                self@ == (TablesView {
                    mappings: reordered(before.mappings, list.take(index as int)),
                    ..before
                }),
            decreases mappings.len() - index,
        {
            let wanted: u8 = mappings[index].physical_channel;
            let place: u8 = index as u8 + 1;
            let ghost prefix = list.take(index as int);
            let ghost next = list.take(index + 1);
            let ghost start = reordered(before.mappings, prefix);
            let ghost goal = reordered(before.mappings, next);
            proof {
                assert(next.drop_last() =~= prefix);
                assert(next.last() == mappings@[index as int]@);
            }
            let mut i: usize = 0;
            while i < self.tables.mappings.len()
                invariant
                    i <= self.tables.mappings.len(),
                    place >= 1,
                    next.len() == place,
                    next.drop_last() == prefix,
                    next.last().physical_channel == wanted,
                    start == reordered(before.mappings, prefix),
                    goal == reordered(before.mappings, next),
                    self@ == (TablesView { mappings: self@.mappings, ..before }),
                    self@.mappings.len() == before.mappings.len(),
                    forall|k: int| 0 <= k < i ==> #[trigger] self@.mappings[k] == goal[k],
                    forall|k: int|
                        i <= k < before.mappings.len() ==> #[trigger] self@.mappings[k]
                            == start[k],
                decreases self.tables.mappings.len() - i,
            {
                let ghost prev = self@;
                let ghost held = self.tables.mappings@;
                assert(prev.mappings[i as int] == held[i as int]@);
                if self.tables.mappings[i].physical_channel == wanted {
                    self.tables.mappings[i].order_index = place;
                }
                proof {
                    assert forall|k: int| 0 <= k < held.len() && k != i implies #[trigger] self@.mappings[k]
                        == prev.mappings[k] by {
                        assert(self.tables.mappings@[k] == held[k]);
                    }
                    assert(self@.mappings[i as int] == self.tables.mappings@[i as int]@);
                    assert(self@.mappings[i as int] =~= goal[i as int]);
                }
                i += 1;
            }
            assert(self@.mappings =~= goal);
            index += 1;
        }
        proof {
            assert(list.take(index as int) =~= list);
            let now = self@.mappings;
            assert forall|a: int, b: int| 0 <= a < b < now.len() implies (
            #[trigger] now[a]).physical_channel != (#[trigger] now[b]).physical_channel by {
                assert(now[a].physical_channel == before.mappings[a].physical_channel);
                assert(now[b].physical_channel == before.mappings[b].physical_channel);
            }
        }
    }

    /// As which channel a physical channel is sent, if it is sent.
    pub fn get_logical_channel(&self, physical_channel: u8) -> (r: Option<u8>)
        ensures
            r == logical_of(self@.mappings, physical_channel),
    {
        match self.get_channel_mapping(physical_channel) {
            Some(mapping) => if mapping.enabled {
                Some(mapping.logical_channel)
            } else {
                None
            },
            None => None,
        }
    }

    /// Which physical channel is sent as a logical one: the first that was written.
    pub fn get_physical_channel(&self, logical_channel: u8) -> (r: Option<u8>)
        ensures
            r == physical_of(self@.mappings, logical_channel),
    {
        let ghost rows = self@.mappings;
        let ghost wanted = is_sent_as(logical_channel);
        let mut i: usize = 0;
        assert(rows.skip(0) =~= rows);
        while i < self.tables.mappings.len()
            invariant
                rows == self@.mappings,
                wanted == is_sent_as(logical_channel),
                i <= self.tables.mappings.len(),
                first_where(rows, wanted) == first_where(rows.skip(i as int), wanted),
            decreases self.tables.mappings.len() - i,
        {
            assert(rows[i as int] == self.tables.mappings@[i as int]@);
            assert(rows.skip(i as int)[0] == rows[i as int]);
            assert(rows.skip(i as int).skip(1) =~= rows.skip(i + 1));
            if self.tables.mappings[i].logical_channel == logical_channel
                && self.tables.mappings[i].enabled {
                return Some(self.tables.mappings[i].physical_channel);
            }
            i += 1;
        }
        None
    }

    /// Keeps what a client asked for, in place of what it asked for before.
    pub fn save_client_config(&mut self, client_ip: &str, client_port: u16, config: &ClientConfig)
        requires
            old(self).wf(),
        ensures
            final(self).wf(),
            final(self)@ == (TablesView {
                clients: with_client_config(
                    old(self)@.clients,
                    client_ip@,
                    client_port,
                    config@,
                ),
                ..old(self)@
            }),
    {
        let ghost before = self@;
        let ghost rows = before.clients;
        let ghost kept_by = is_not_from(client_ip@, client_port);
        let ip = client_ip.to_owned();
        let mut kept: Vec<ClientRow> = Vec::new();
        let mut i: usize = 0;
        proof {
            reveal(Seq::filter);
            assert(views(kept@) =~= rows.take(0).filter(kept_by));
        }
        while i < self.tables.clients.len()
            invariant
                *self == *old(self),
                self@ == before,
                rows == before.clients,
                ip@ == client_ip@,
                i <= self.tables.clients.len(),
                kept_by == is_not_from(client_ip@, client_port),
                views(kept@) == rows.take(i as int).filter(kept_by),
            decreases self.tables.clients.len() - i,
        {
            assert(rows[i as int] == self.tables.clients@[i as int]@);
            proof {
                lemma_filter_take(rows, kept_by, i as int);
            }
            let row: &ClientRow = &self.tables.clients[i];
            if !(row.client_port == client_port && row.client_ip == ip) {
                let copy = copy_client_row(row);
                let ghost held = kept@;
                kept.push(copy);
                assert(views(kept@) =~= views(held).push(copy@));
            }
            i += 1;
        }
        assert(rows.take(i as int) =~= rows);
        let sample_rate: u32 = match config.sample_rate {
            Some(rate) => rate,
            None => DEFAULT_SAMPLE_RATE,
        };
        let compression = match &config.compression {
            Some(c) => c.clone(),
            None => "none".to_owned(),
        };
        let row = ClientRow {
            client_ip: ip,
            client_port,
            sample_rate,
            compression,
            config: config.clone(),
        };
        let ghost held = kept@;
        kept.push(row);
        proof {
            assert(views(held.push(row)) =~= views(held).push(row@));
            assert(row@ =~= client_row(client_ip@, client_port, config@));
            lemma_with_client_differs(rows, client_ip@, client_port, config@);
        }
        self.tables.clients = kept;
        assert(self@ =~= TablesView {
            clients: with_client_config(before.clients, client_ip@, client_port, config@),
            ..before
        });
    }

    /// What a client asked for last, if it ever did.
    pub fn get_client_config(&self, client_ip: &str, client_port: u16) -> (r: Option<ClientConfig>)
        ensures
            match r {
                Some(c) => client_config_of(self@.clients, client_ip@, client_port) == Some(c@),
                None => client_config_of(self@.clients, client_ip@, client_port) is None,
            },
    {
        let ghost rows = self@.clients;
        let ghost wanted = is_from(client_ip@, client_port);
        let ip = client_ip.to_owned();
        let mut i: usize = 0;
        assert(rows.skip(0) =~= rows);
        while i < self.tables.clients.len()
            invariant
                rows == self@.clients,
                wanted == is_from(client_ip@, client_port),
                ip@ == client_ip@,
                i <= self.tables.clients.len(),
                first_where(rows, wanted) == first_where(rows.skip(i as int), wanted),
            decreases self.tables.clients.len() - i,
        {
            assert(rows[i as int] == self.tables.clients@[i as int]@);
            assert(rows.skip(i as int)[0] == rows[i as int]);
            assert(rows.skip(i as int).skip(1) =~= rows.skip(i + 1));
            let row: &ClientRow = &self.tables.clients[i];
            if row.client_port == client_port && row.client_ip == ip {
                return Some(row.config.clone());
            }
            i += 1;
        }
        None
    }

    /// Records what a client measured. The four measures are the bits of floating-point numbers.
    pub fn save_qos_metrics(
        &mut self,
        client_ip: &str,
        client_port: u16,
        packets_received: u32,
        packets_expected: u32,
        packet_loss_rate: u64,
        jitter_ms: u64,
        latency_ms: u64,
        bandwidth_mbps: u64,
    )
        requires
            old(self).wf(),
        ensures
            final(self).wf(),
            final(self)@ == (TablesView {
                qos: old(self)@.qos.push(
                    QosRowView {
                        client_ip: client_ip@,
                        client_port,
                        packets_received,
                        packets_expected,
                        packet_loss_rate,
                        jitter_ms,
                        latency_ms,
                        bandwidth_mbps,
                    },
                ),
                ..old(self)@
            }),
    {
        let ghost held = self.tables.qos@;
        let row = QosRow {
            client_ip: client_ip.to_owned(),
            client_port,
            packets_received,
            packets_expected,
            packet_loss_rate,
            jitter_ms,
            latency_ms,
            bandwidth_mbps,
        };
        self.tables.qos.push(row);
        assert(views(held.push(row)) =~= views(held).push(row@));
    }

    /// The settings that the rows amount to.
    pub fn get_settings(&self) -> (r: Settings)
        ensures
            r@ == settings_of(self@),
    {
        let (sample_rate, compression) = self.get_audio_config();
        let channels = self.get_channel_configs();
        Settings { channels, compression, sample_rate }
    }

    /// Records that a setting was changed.
    pub fn log_config_change(&mut self, change_type: &str, reason: &str, details: &str)
        requires
            old(self).wf(),
        ensures
            final(self).wf(),
            final(self)@ == (TablesView {
                changes: old(self)@.changes.push(
                    ConfigChangeView {
                        change_type: change_type@,
                        reason: reason@,
                        details: details@,
                    },
                ),
                ..old(self)@
            }),
    {
        let ghost held = self.tables.changes@;
        let row = ConfigChange {
            change_type: change_type.to_owned(),
            reason: reason.to_owned(),
            details: details.to_owned(),
        };
        self.tables.changes.push(row);
        assert(views(held.push(row)) =~= views(held).push(row@));
    }

    /// The jitter thresholds in force: for interpolation and for dropping.
    pub fn get_jitter_thresholds(&self) -> (r: (u32, u32))
        ensures
            r == jitter_thresholds(self@.audio),
    {
        match self.find_active() {
            Some(i) => {
                assert(self@.audio[i as int] == self.tables.audio@[i as int]@);
                (self.tables.audio[i].jitter_interpolate, self.tables.audio[i].jitter_drop)
            },
            None => (DEFAULT_JITTER_INTERPOLATE, DEFAULT_JITTER_DROP),
        }
    }

    /// Puts other jitter thresholds in force.
    pub fn update_jitter_thresholds(&mut self, interpolate: u32, drop: u32)
        requires
            old(self).wf(),
        ensures
            final(self).wf(),
            final(self)@ == (TablesView {
                audio: with_jitter_thresholds(old(self)@.audio, interpolate, drop),
                ..old(self)@
            }),
    {
        let ghost before = self@;
        let ghost goal = with_jitter_thresholds(before.audio, interpolate, drop);
        let mut i: usize = 0;
        while i < self.tables.audio.len()
            invariant
                i <= self.tables.audio.len(),
                goal == with_jitter_thresholds(before.audio, interpolate, drop),
                self@ == (TablesView { audio: self@.audio, ..before }),
                self@.audio.len() == before.audio.len(),
                forall|k: int| 0 <= k < i ==> #[trigger] self@.audio[k] == goal[k],
                forall|k: int|
                    i <= k < before.audio.len() ==> #[trigger] self@.audio[k] == before.audio[k],
            decreases self.tables.audio.len() - i,
        {
            let ghost prev = self@;
            let ghost held = self.tables.audio@;
            assert(prev.audio[i as int] == held[i as int]@);
            if self.tables.audio[i].active {
                self.tables.audio[i].jitter_interpolate = interpolate;
                self.tables.audio[i].jitter_drop = drop;
            }
            proof {
                assert forall|k: int| 0 <= k < held.len() && k != i implies #[trigger] self@.audio[k]
                    == prev.audio[k] by {
                    assert(self.tables.audio@[k] == held[k]);
                }
                assert(self@.audio[i as int] == self.tables.audio@[i as int]@);
                assert(self@.audio[i as int] =~= goal[i as int]);
            }
            i += 1;
        }
        proof {
            assert(self@.audio =~= goal);
            assert forall|a: int, b: int| 0 <= a < b < goal.len() implies (#[trigger] goal[a]).id
                < (#[trigger] goal[b]).id by {
                assert(goal[a].id == before.audio[a].id && goal[b].id == before.audio[b].id);
            }
        }
    }

    /// The index of the first active audio row.
    fn find_active(&self) -> (r: Option<usize>)
        ensures
            match r {
                Some(i) => i < self@.audio.len() && first_where(self@.audio, is_active()) == Some(
                    self@.audio[i as int],
                ),
                None => first_where(self@.audio, is_active()) is None,
            },
    {
        let ghost rows = self@.audio;
        let mut i: usize = 0;
        assert(rows.skip(0) =~= rows);
        while i < self.tables.audio.len()
            invariant
                rows == self@.audio,
                i <= self.tables.audio.len(),
                first_where(rows, is_active()) == first_where(rows.skip(i as int), is_active()),
            decreases self.tables.audio.len() - i,
        {
            assert(rows[i as int] == self.tables.audio@[i as int]@);
            assert(rows.skip(i as int)[0] == rows[i as int]);
            assert(rows.skip(i as int).skip(1) =~= rows.skip(i + 1));
            if self.tables.audio[i].active {
                return Some(i);
            }
            i += 1;
        }
        None
    }
}

fn copy_client_row(row: &ClientRow) -> (r: ClientRow)
    ensures
        r@ == row@,
{
    ClientRow {
        client_ip: row.client_ip.clone(),
        client_port: row.client_port,
        sample_rate: row.sample_rate,
        compression: row.compression.clone(),
        config: row.config.clone(),
    }
}

/// Before the place of the row with number 1 stand lower numbers, and behind it none.
pub proof fn lemma_first_audio_place(rows: Seq<AudioRowView>)
    ensures
        first_audio_place(rows) <= rows.len(),
        forall|i: int| 0 <= i < first_audio_place(rows) ==> (#[trigger] rows[i]).id < 1,
        first_audio_place(rows) < rows.len() ==> rows[first_audio_place(rows) as int].id >= 1,
    decreases rows.len(),
{
    if rows.len() > 0 && rows[0].id < 1 {
        let rest = rows.skip(1);
        lemma_first_audio_place(rest);
        assert forall|i: int| 0 <= i < first_audio_place(rows) implies (#[trigger] rows[i]).id
            < 1 by {
            if i > 0 {
                assert(rest[i - 1] == rows[i]);
            }
        }
    }
}

proof fn lemma_seeded_audio_rises(rows: Seq<AudioRowView>)
    requires
        audio_ids_rise(rows),
    ensures
        audio_ids_rise(seeded_audio(rows)),
{
    lemma_first_where(rows, has_id(1));
    lemma_first_audio_place(rows);
    let at = first_audio_place(rows) as int;
    let now = seeded_audio(rows);
    if first_where(rows, has_id(1)) is None {
        assert forall|i: int| at <= i < rows.len() implies (#[trigger] rows[i]).id > 1 by {
            assert(!has_id(1)(rows[i]));
            if i > at {
                assert(rows[at].id < rows[i].id);
            }
        }
        assert forall|a: int, b: int| 0 <= a < b < now.len() implies (#[trigger] now[a]).id < (
        #[trigger] now[b]).id by {
            if a < at {
                assert(now[a] == rows[a]);
            } else if a > at {
                assert(now[a] == rows[a - 1]);
            }
            if b < at {
                assert(now[b] == rows[b]);
            } else if b > at {
                assert(now[b] == rows[b - 1]);
            }
        }
    }
}

/// Taking a mapping away leaves no two for the same channel.
pub proof fn lemma_without_differs(rows: Seq<ChannelMappingView>, physical_channel: u8)
    requires
        channels_differ(rows),
    ensures
        channels_differ(without_mapping(rows, physical_channel)),
        forall|i: int|
            0 <= i < without_mapping(rows, physical_channel).len() ==> !is_for(physical_channel)(
                #[trigger] without_mapping(rows, physical_channel)[i],
            ),
    decreases rows.len(),
{
    let kept_by = is_not_for(physical_channel);
    let kept = rows.filter(kept_by);
    assert forall|i: int| 0 <= i < kept.len() implies !is_for(physical_channel)(
        #[trigger] kept[i],
    ) by {
        lemma_filter_member(rows, kept_by, i);
    }
    reveal(Seq::filter);
    if rows.len() > 0 {
        let init = rows.drop_last();
        assert forall|i: int, j: int| 0 <= i < j < init.len() implies (
        #[trigger] init[i]).physical_channel != (#[trigger] init[j]).physical_channel by {
            assert(init[i] == rows[i] && init[j] == rows[j]);
        }
        lemma_without_differs(init, physical_channel);
        if kept_by(rows.last()) {
            let rest = init.filter(kept_by);
            assert forall|i: int| 0 <= i < rest.len() implies !is_for(
                rows.last().physical_channel,
            )(#[trigger] rest[i]) by {
                lemma_filter_member(init, kept_by, i);
                let k = init.index_of(rest[i]);
                assert(rows[k] == rest[i]);
                assert(rows[rows.len() - 1] == rows.last());
            }
            lemma_push_differs(rest, rows.last());
        }
    }
}

/// Keeping a request leaves no two rows for the same client.
pub proof fn lemma_with_client_differs(
    rows: Seq<ClientRowView>,
    ip: Seq<char>,
    port: u16,
    config: ClientConfigView,
)
    requires
        clients_differ(rows),
    ensures
        clients_differ(with_client_config(rows, ip, port, config)),
{
    let kept_by = is_not_from(ip, port);
    let kept = rows.filter(kept_by);
    lemma_kept_clients_differ(rows, kept_by);
    let all = with_client_config(rows, ip, port, config);
    assert forall|i: int, j: int| 0 <= i < j < all.len() implies (#[trigger] all[i]).client_ip != (
    #[trigger] all[j]).client_ip || all[i].client_port != all[j].client_port by {
        assert(all[i] == kept[i]);
        if j < kept.len() {
            assert(all[j] == kept[j]);
        } else {
            lemma_filter_member(rows, kept_by, i);
        }
    }
}

proof fn lemma_kept_clients_differ(
    rows: Seq<ClientRowView>,
    kept_by: spec_fn(ClientRowView) -> bool,
)
    requires
        clients_differ(rows),
    ensures
        clients_differ(rows.filter(kept_by)),
    decreases rows.len(),
{
    reveal(Seq::filter);
    if rows.len() > 0 {
        let init = rows.drop_last();
        assert forall|i: int, j: int| 0 <= i < j < init.len() implies (
        #[trigger] init[i]).client_ip != (#[trigger] init[j]).client_ip || init[i].client_port
            != init[j].client_port by {
            assert(init[i] == rows[i] && init[j] == rows[j]);
        }
        lemma_kept_clients_differ(init, kept_by);
        if kept_by(rows.last()) {
            let rest = init.filter(kept_by);
            let all = rest.push(rows.last());
            assert forall|i: int, j: int| 0 <= i < j < all.len() implies (
            #[trigger] all[i]).client_ip != (#[trigger] all[j]).client_ip || all[i].client_port
                != all[j].client_port by {
                assert(all[i] == rest[i]);
                if j < rest.len() {
                    assert(all[j] == rest[j]);
                } else {
                    lemma_filter_member(init, kept_by, i);
                    let k = init.index_of(rest[i]);
                    assert(rows[k] == rest[i]);
                    assert(rows[rows.len() - 1] == rows.last());
                }
            }
        }
    }
}

/// A mapping for a channel that had none leaves no two for the same channel.
pub proof fn lemma_push_differs(rows: Seq<ChannelMappingView>, m: ChannelMappingView)
    requires
        channels_differ(rows),
        forall|i: int| 0 <= i < rows.len() ==> !is_for(m.physical_channel)(#[trigger] rows[i]),
    ensures
        channels_differ(rows.push(m)),
{
    let next = rows.push(m);
    assert forall|i: int, j: int| 0 <= i < j < next.len() implies (
    #[trigger] next[i]).physical_channel != (#[trigger] next[j]).physical_channel by {
        assert(next[i] == rows[i]);
        if j < rows.len() {
            assert(next[j] == rows[j]);
        } else {
            assert(!is_for(m.physical_channel)(rows[i]));
        }
    }
}

fn check_audio_ids(rows: &Vec<AudioRow>) -> (r: bool)
    ensures
        r == audio_ids_rise(views(rows@)),
{
    let ghost v = views(rows@);
    let mut i: usize = 1;
    while i < rows.len()
        invariant
            1 <= i,
            v == views(rows@),
            forall|a: int, b: int|
                0 <= a < b < i && b < v.len() ==> (#[trigger] v[a]).id < (#[trigger] v[b]).id,
        decreases rows.len() - i,
    {
        assert(v[i as int].id == rows@[i as int].id);
        assert(v[i - 1].id == rows@[i - 1].id);
        if rows[i].id <= rows[i - 1].id {
            return false;
        }
        proof {
            assert forall|a: int, b: int| 0 <= a < b < i + 1 implies (#[trigger] v[a]).id < (
            #[trigger] v[b]).id by {
                if b == i && a < i - 1 {
                    assert(v[a].id < v[i - 1].id);
                }
            }
        }
        i += 1;
    }
    true
}

fn check_channels(rows: &Vec<ChannelMapping>) -> (r: bool)
    ensures
        r == channels_differ(views(rows@)),
{
    let ghost v = views(rows@);
    let mut j: usize = 0;
    while j < rows.len()
        invariant
            j <= rows.len(),
            v == views(rows@),
            forall|a: int, b: int|
                0 <= a < b < j ==> (#[trigger] v[a]).physical_channel != (
                #[trigger] v[b]).physical_channel,
        decreases rows.len() - j,
    {
        let mut i: usize = 0;
        while i < j
            invariant
                i <= j,
                j < rows.len(),
                v == views(rows@),
                forall|a: int|
                    0 <= a < i ==> (#[trigger] v[a]).physical_channel != v[j as int].physical_channel,
            decreases j - i,
        {
            assert(v[i as int] == rows@[i as int]@);
            assert(v[j as int] == rows@[j as int]@);
            if rows[i].physical_channel == rows[j].physical_channel {
                return false;
            }
            i += 1;
        }
        j += 1;
    }
    true
}

fn check_clients(rows: &Vec<ClientRow>) -> (r: bool)
    ensures
        r == clients_differ(views(rows@)),
{
    let ghost v = views(rows@);
    let mut j: usize = 0;
    while j < rows.len()
        invariant
            j <= rows.len(),
            v == views(rows@),
            forall|a: int, b: int|
                0 <= a < b < j ==> (#[trigger] v[a]).client_ip != (#[trigger] v[b]).client_ip
                    || v[a].client_port != v[b].client_port,
        decreases rows.len() - j,
    {
        let mut i: usize = 0;
        while i < j
            invariant
                i <= j,
                j < rows.len(),
                v == views(rows@),
                forall|a: int|
                    0 <= a < i ==> (#[trigger] v[a]).client_ip != v[j as int].client_ip
                        || v[a].client_port != v[j as int].client_port,
            decreases j - i,
        {
            assert(v[i as int] == rows@[i as int]@);
            assert(v[j as int] == rows@[j as int]@);
            if rows[i].client_port == rows[j].client_port && rows[i].client_ip
                == rows[j].client_ip {
                return false;
            }
            i += 1;
        }
        j += 1;
    }
    true
}

} // verus!
