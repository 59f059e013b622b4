//! Settings of the server and of its clients.

use crate::rows::views;
use crate::text::{digit_value, two_digit_text};
use vstd::prelude::*;
use vstd::string::StringExecFns;

verus! {

/// The number of channels that the console sends over USB.
pub const USB_CHANNELS: u8 = 32;

/// The sample rate in Hz where nothing else was set.
pub const DEFAULT_SAMPLE_RATE: u32 = 48000;

/// A channel as it is listed to clients.
#[derive(Debug)]
pub struct ChannelConfig {
    pub id: u8,
    pub name: String,
}

/// The settings of the whole server.
#[derive(Debug)]
pub struct Settings {
    pub channels: Vec<ChannelConfig>,
    pub compression: String,
    pub sample_rate: u32,
}

/// What a client asked for. What it left out is `None`.
#[derive(Debug)]
pub struct ClientConfig {
    pub channels: Option<Vec<ChannelConfig>>,
    pub sample_rate: Option<u32>,
    pub compression: Option<String>,
}

/// What `ChannelConfig` holds.
#[verifier::ext_equal]
pub struct ChannelConfigView {
    pub id: u8,
    pub name: Seq<char>,
}

/// What `Settings` holds.
#[verifier::ext_equal]
pub struct SettingsView {
    pub channels: Seq<ChannelConfigView>,
    pub compression: Seq<char>,
    pub sample_rate: u32,
}

/// What `ClientConfig` holds.
#[verifier::ext_equal]
pub struct ClientConfigView {
    pub channels: Option<Seq<ChannelConfigView>>,
    pub sample_rate: Option<u32>,
    pub compression: Option<Seq<char>>,
}

impl View for ChannelConfig {
    type V = ChannelConfigView;

    open spec fn view(&self) -> ChannelConfigView {
        ChannelConfigView { id: self.id, name: self.name@ }
    }
}

impl View for Settings {
    type V = SettingsView;

    open spec fn view(&self) -> SettingsView {
        SettingsView {
            channels: views(self.channels@),
            compression: self.compression@,
            sample_rate: self.sample_rate,
        }
    }
}

impl View for ClientConfig {
    type V = ClientConfigView;

    open spec fn view(&self) -> ClientConfigView {
        ClientConfigView {
            channels: match self.channels {
                Some(c) => Some(views(c@)),
                None => None,
            },
            sample_rate: self.sample_rate,
            compression: match self.compression {
                Some(c) => Some(c@),
                None => None,
            },
        }
    }
}

impl Clone for ChannelConfig {
    fn clone(&self) -> (r: Self)
        ensures
            r == *self,
    {
        ChannelConfig { id: self.id, name: self.name.clone() }
    }
}

impl Clone for Settings {
    fn clone(&self) -> (r: Self)
        ensures
            r@ == self@,
    {
        Settings {
            channels: copy_channels(&self.channels),
            compression: self.compression.clone(),
            sample_rate: self.sample_rate,
        }
    }
}

impl Clone for ClientConfig {
    fn clone(&self) -> (r: Self)
        ensures
            r@ == self@,
    {
        ClientConfig {
            channels: match &self.channels {
                Some(c) => Some(copy_channels(c)),
                None => None,
            },
            sample_rate: self.sample_rate,
            compression: match &self.compression {
                Some(c) => Some(c.clone()),
                None => None,
            },
        }
    }
}

/// The same channels in a list of their own.
pub fn copy_channels(channels: &Vec<ChannelConfig>) -> (r: Vec<ChannelConfig>)
    ensures
        r@ == channels@,
{
    let mut out: Vec<ChannelConfig> = Vec::new();
    let mut i: usize = 0;
    while i < channels.len()
        invariant
            i <= channels.len(),
            out@ == channels@.take(i as int),
        decreases channels.len() - i,
    {
        out.push(channels[i].clone());
        assert(channels@.take(i + 1) == channels@.take(i as int).push(channels@[i as int]));
        i += 1;
    }
    assert(channels@.take(i as int) == channels@);
    out
}

/// The name of channel `n` before anybody gave it another: `CH01`, `CH02`, and so on.
pub open spec fn default_name(n: nat) -> Seq<char> {
    "CH"@ + crate::text::two_digits(n)
}

/// The channels before anybody changed them: all of them, numbered from 1.
pub open spec fn default_channel_list() -> Seq<ChannelConfigView> {
    Seq::new(
        USB_CHANNELS as nat,
        |i: int| ChannelConfigView { id: (i + 1) as u8, name: default_name((i + 1) as nat) },
    )
}

/// The settings of a server that was never configured.
pub open spec fn default_settings_view() -> SettingsView {
    SettingsView {
        channels: default_channel_list(),
        compression: "none"@,
        sample_rate: DEFAULT_SAMPLE_RATE,
    }
}

/// How many channels a client asked for, or `otherwise` where it named none.
pub open spec fn requested_channels(config: Option<ClientConfigView>, otherwise: nat) -> nat {
    match config {
        Some(c) => match c.channels {
            Some(list) => list.len(),
            None => otherwise,
        },
        None => otherwise,
    }
}

/// The default name of channel `n`.
pub fn default_channel_name(n: u8) -> (r: String)
    ensures
        r@ == default_name(n as nat),
{
    let mut s = "CH".to_owned();
    s.append(two_digit_text(n as u64).as_str());
    s
}

/// The channels before anybody changed them.
pub fn default_channels() -> (r: Vec<ChannelConfig>)
    ensures
        views(r@) == default_channel_list(),
{
    let mut out: Vec<ChannelConfig> = Vec::new();
    let mut n: u8 = 0;
    while n < USB_CHANNELS
        invariant
            n <= USB_CHANNELS,
            out@.len() == n,
            forall|i: int| 0 <= i < n ==> (#[trigger] out@[i])@ == default_channel_list()[i],
        decreases USB_CHANNELS - n,
    {
        n += 1;
        out.push(ChannelConfig { id: n, name: default_channel_name(n) });
    }
    out
}

/// The settings of a server that was never configured.
pub fn default_settings() -> (r: Settings)
    ensures
        r@ == default_settings_view(),
{
    Settings {
        channels: default_channels(),
        compression: "none".to_owned(),
        sample_rate: DEFAULT_SAMPLE_RATE,
    }
}

/// The settings to start with, and whether they still have to be written to the file.
#[derive(Debug)]
pub struct LoadedConfig {
    pub settings: Settings,
    pub must_save: bool,
}

/// Decides on the settings to start with: those of the settings file where there is one, else
/// the default ones, which are then written.
pub fn load_config(stored: Option<Settings>) -> (r: LoadedConfig)
    ensures
        match stored {
            Some(s) => r.settings == s && !r.must_save,
            None => r.settings@ == default_settings_view() && r.must_save,
        },
{
    match stored {
        Some(settings) => LoadedConfig { settings, must_save: false },
        None => LoadedConfig { settings: default_settings(), must_save: true },
    }
}

/// How many channels a client asked for, or `otherwise` where it named none.
pub fn count_requested_channels(config: Option<&ClientConfig>, otherwise: usize) -> (r: usize)
    ensures
        r == requested_channels(
            match config {
                Some(c) => Some(c@),
                None => None,
            },
            otherwise as nat,
        ),
{
    match config {
        Some(c) => match &c.channels {
            Some(list) => list.len(),
            None => otherwise,
        },
        None => otherwise,
    }
}

/// A channel's default name is `CH` and its number, with a zero in front where it is below ten.
pub proof fn law_default_names(n: u8, r: String)
    requires
        call_ensures(default_channel_name, (n,), r),
        n < 100,
    ensures
        r@.len() == 4,
        r@[0] == 'C',
        r@[1] == 'H',
        digit_value(r@[2]) == n / 10,
        digit_value(r@[3]) == n % 10,
{
    reveal_strlit("CH");
    reveal_with_fuel(crate::text::decimal, 2);
}

/// A server that was never configured has the channels 1 to 32 under their default names, no
/// compression and a rate of 48000.
pub proof fn law_default_settings(r: Settings, channels: Vec<ChannelConfig>, i: int, name: String)
    requires
        call_ensures(default_settings, (), r),
        call_ensures(default_channels, (), channels),
        0 <= i < 32,
        call_ensures(default_channel_name, ((i + 1) as u8,), name),
    ensures
        r.sample_rate == 48000,
        r.compression@ == "none"@,
        r.channels@.len() == 32,
        r.channels@[i].id == i + 1,
        r.channels@[i].name@ == name@,
        channels@.len() == 32,
        channels@[i].id == i + 1,
        channels@[i].name@ == name@,
{
    assert(views(r.channels@).len() == r.channels@.len());
    assert(views(r.channels@)[i] == r.channels@[i]@);
    assert(views(channels@).len() == channels@.len());
    assert(views(channels@)[i] == channels@[i]@);
}

/// Settings that were stored are those to start with, and are not written again; where there are none,
/// the default ones are, and are written.
pub proof fn law_stored_settings_come_first(
    stored: Option<Settings>,
    r: LoadedConfig,
    default: Settings,
)
    requires
        call_ensures(load_config, (stored,), r),
        call_ensures(default_settings, (), default),
    ensures
        stored matches Some(s) ==> r.settings@ == s@ && !r.must_save,
        stored is None ==> r.settings@ == default@ && r.must_save,
{
}

/// As many channels are asked for as the list holds; without a list, it is the number for that case.
pub proof fn law_named_channels_are_counted(
    config: Option<&ClientConfig>,
    otherwise: usize,
    r: usize,
)
    requires
        call_ensures(count_requested_channels, (config, otherwise), r),
    ensures
        config matches Some(c) ==> (c.channels matches Some(list) ==> r == list@.len()),
        config matches Some(c) ==> (c.channels is None ==> r == otherwise),
        config is None ==> r == otherwise,
{
}

/// Requests that hold the same name the same channels in the same order, under the same names, the same
/// rate and the same compression, and leave the same out.
pub proof fn law_same_requests(a: ClientConfig, b: ClientConfig, i: int)
    requires
        a@ == b@,
    ensures
        a.channels is Some <==> b.channels is Some,
        a.channels matches Some(x) ==> (b.channels matches Some(y) && x@.len() == y@.len() && (0 <= i
            < x@.len() ==> x@[i].id == y@[i].id && x@[i].name@ == y@[i].name@)),
        a.sample_rate == b.sample_rate,
        a.compression is Some <==> b.compression is Some,
        a.compression matches Some(x) ==> (b.compression matches Some(y) && x@ == y@),
{
    match (a.channels, b.channels) {
        (Some(x), Some(y)) => {
            assert(views(x@) == views(y@));
            assert(views(x@).len() == x@.len() && views(y@).len() == y@.len());
            if 0 <= i < x@.len() {
                assert(views(x@)[i] == x@[i]@ && views(y@)[i] == y@[i]@);
            }
        },
        _ => {},
    }
}

/// Settings that hold the same list the same channels in the same order, and have the same rate and
/// compression.
pub proof fn law_same_settings(a: Settings, b: Settings, i: int)
    requires
        a@ == b@,
    ensures
        a.channels@.len() == b.channels@.len(),
        0 <= i < a.channels@.len() ==> a.channels@[i].id == b.channels@[i].id
            && a.channels@[i].name@ == b.channels@[i].name@,
        a.sample_rate == b.sample_rate,
        a.compression@ == b.compression@,
{
    assert(views(a.channels@) == views(b.channels@));
    assert(views(a.channels@).len() == a.channels@.len());
    assert(views(b.channels@).len() == b.channels@.len());
    if 0 <= i < a.channels@.len() {
        assert(views(a.channels@)[i] == a.channels@[i]@);
        assert(views(b.channels@)[i] == b.channels@[i]@);
    }
}

} // verus!
