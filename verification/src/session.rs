//! The clients that the server knows: which of them are sent audio, when they were last heard of,
//! and what they asked for.
//!
//! A client is sent audio once it has asked for it and has said what it wants, in either order,
//! and no more than a fixed number of clients are sent audio at a time.
//!
//! Clients are told apart by their whole addresses, so that one host can have several. A client
//! asks for audio from one port of its host, and says what it wants and lets itself be heard of
//! over a socket from another. So each stream is paired with a socket of its host that no other
//! stream is paired with, and what comes over the socket counts for the stream.

use crate::config::{
    copy_channels, ChannelConfig, ClientConfig, ClientConfigView, Settings, SettingsView,
};
use crate::rows::views;
use crate::rtp::{enabled_count, HEARTBEAT_TIMEOUT_NS, RTP_PORT};
use crate::stream::{
    check_heartbeat, count_enabled, heartbeat_decision, lemma_any_enabled, StreamDecision,
};
use crate::tables::{ChannelMapping, ChannelMappingView};
use vstd::prelude::*;

verus! {

/// A network address: the number of the host, which kind of address it is, and the port. `zone`
/// is what else an address of the long kind bears.
#[derive(Debug, Clone, Copy, PartialEq, Eq, Structural)]
pub struct ClientAddr {
    pub host: u128,
    pub long: bool,
    pub zone: u64,
    pub port: u16,
}

/// The number of clients that can be sent audio at a time.
pub const MAX_CLIENTS: usize = 20;

/// Whether two addresses are of the same host.
pub open spec fn same_host(a: ClientAddr, b: ClientAddr) -> bool {
    a.host == b.host && a.long == b.long && a.zone == b.zone
}

fn are_of_one_host(a: ClientAddr, b: ClientAddr) -> (r: bool)
    ensures
        r == same_host(a, b),
{
    a.host == b.host && a.long == b.long && a.zone == b.zone
}

/// The address at which a client receives audio: the port is always the same.
pub fn rtp_destination(client: ClientAddr) -> (r: ClientAddr)
    ensures
        r == (ClientAddr { port: RTP_PORT, ..client }),
{
    ClientAddr { host: client.host, long: client.long, zone: client.zone, port: RTP_PORT }
}

/// What is known of each of several clients.
pub struct AddrMap<V> {
    entries: Vec<(ClientAddr, V)>,
}

/// Whether entry `i` is that of `addr`.
spec fn is_entry<V>(entries: Seq<(ClientAddr, V)>, addr: ClientAddr, i: int) -> bool {
    0 <= i < entries.len() && entries[i].0 == addr
}

/// The index of the entry of `addr`.
spec fn entry_index<V>(entries: Seq<(ClientAddr, V)>, addr: ClientAddr) -> int {
    choose|i: int| is_entry(entries, addr, i)
}

spec fn entries_differ<V>(entries: Seq<(ClientAddr, V)>) -> bool {
    forall|i: int, j: int|
        0 <= i < j < entries.len() ==> (#[trigger] entries[i]).0 != (#[trigger] entries[j]).0
}

spec fn entries_map<V>(entries: Seq<(ClientAddr, V)>) -> Map<ClientAddr, V> {
    Map::new(
        |addr: ClientAddr| exists|i: int| is_entry(entries, addr, i),
        |addr: ClientAddr| entries[entry_index(entries, addr)].1,
    )
}

proof fn lemma_entry<V>(entries: Seq<(ClientAddr, V)>, addr: ClientAddr, i: int)
    requires
        entries_differ(entries),
        is_entry(entries, addr, i),
    ensures
        entries_map(entries).contains_key(addr),
        entries_map(entries)[addr] == entries[i].1,
{
    let k = entry_index(entries, addr);
    assert(is_entry(entries, addr, k));
    if k < i {
        assert(entries[k].0 != entries[i].0);
    }
    if i < k {
        assert(entries[i].0 != entries[k].0);
    }
}

proof fn lemma_entry_count<V>(entries: Seq<(ClientAddr, V)>)
    requires
        entries_differ(entries),
    ensures
        entries_map(entries).dom().finite(),
        entries_map(entries).dom().len() == entries.len(),
    decreases entries.len(),
{
    if entries.len() == 0 {
        assert(entries_map(entries).dom() =~= Set::empty());
    } else {
        let init = entries.drop_last();
        let last = entries.last().0;
        assert(entries_differ(init)) by {
            assert forall|i: int, j: int| 0 <= i < j < init.len() implies (#[trigger] init[i]).0 != (
            #[trigger] init[j]).0 by {
                assert(init[i] == entries[i] && init[j] == entries[j]);
            }
        }
        lemma_entry_count(init);
        assert(!entries_map(init).contains_key(last)) by {
            if entries_map(init).contains_key(last) {
                let i = entry_index(init, last);
                assert(is_entry(init, last, i));
                assert(entries[i].0 != entries[entries.len() - 1].0);
            }
        }
        assert forall|k: ClientAddr| #[trigger]
            entries_map(entries).contains_key(k) == entries_map(init).dom().insert(last).contains(
                k,
            ) by {
            if entries_map(entries).contains_key(k) && k != last {
                let i = entry_index(entries, k);
                assert(is_entry(entries, k, i));
                assert(is_entry(init, k, i));
            }
            if entries_map(init).contains_key(k) {
                let i = entry_index(init, k);
                assert(is_entry(init, k, i));
                assert(is_entry(entries, k, i));
            }
            if k == last {
                assert(is_entry(entries, k, entries.len() - 1));
            }
        }
        assert(entries_map(entries).dom() =~= entries_map(init).dom().insert(last));
    }
}

impl<V> View for AddrMap<V> {
    type V = Map<ClientAddr, V>;

    closed spec fn view(&self) -> Map<ClientAddr, V> {
        entries_map(self.entries@)
    }
}

impl<V> AddrMap<V> {
    /// Whether there is at most one entry for each client.
    pub closed spec fn wf(&self) -> bool {
        entries_differ(self.entries@)
    }

    /// A map without entries.
    pub fn new() -> (r: AddrMap<V>)
        ensures
            r.wf(),
            r@ == Map::<ClientAddr, V>::empty(),
    {
        let r = AddrMap { entries: Vec::new() };
        assert(r@ =~= Map::<ClientAddr, V>::empty());
        r
    }

    fn find(&self, addr: ClientAddr) -> (r: Option<usize>)
        ensures
            match r {
                Some(i) => is_entry(self.entries@, addr, i as int),
                None => forall|i: int| !is_entry(self.entries@, addr, i),
            },
    {
        let mut i: usize = 0;
        while i < self.entries.len()
            invariant
                i <= self.entries.len(),
                forall|k: int| k < i ==> !is_entry(self.entries@, addr, k),
            decreases self.entries.len() - i,
        {
            if self.entries[i].0 == addr {
                return Some(i);
            }
            i += 1;
        }
        None
    }

    /// The clients that have an entry, each once.
    pub fn addresses(&self) -> (r: Vec<ClientAddr>)
        requires
            self.wf(),
        ensures
            r@.no_duplicates(),
            forall|addr: ClientAddr| #[trigger] r@.contains(addr) <==> self@.contains_key(addr),
    {
        let mut out: Vec<ClientAddr> = Vec::new();
        let mut i: usize = 0;
        while i < self.entries.len()
            invariant
                i <= self.entries.len(),
                out@.len() == i,
                forall|k: int| 0 <= k < i ==> #[trigger] out@[k] == self.entries@[k].0,
            decreases self.entries.len() - i,
        {
            out.push(self.entries[i].0);
            i += 1;
        }
        proof {
            let entries = self.entries@;
            assert(out@.no_duplicates()) by {
                assert forall|a: int, b: int|
                    0 <= a < out@.len() && 0 <= b < out@.len() && a != b implies out@[a]
                    != out@[b] by {
                    if a < b {
                        assert(entries[a].0 != entries[b].0);
                    } else {
                        assert(entries[b].0 != entries[a].0);
                    }
                }
            }
            assert forall|addr: ClientAddr| #[trigger]
                out@.contains(addr) <==> self@.contains_key(addr) by {
                if out@.contains(addr) {
                    let k = out@.index_of(addr);
                    assert(is_entry(entries, addr, k));
                }
                if self@.contains_key(addr) {
                    let k = entry_index(entries, addr);
                    assert(is_entry(entries, addr, k));
                    assert(out@[k] == addr);
                }
            }
        }
        out
    }

    /// How many clients have an entry.
    pub fn count(&self) -> (r: usize)
        requires
            self.wf(),
        ensures
            self@.dom().finite(),
            r == self@.dom().len(),
    {
        proof {
            lemma_entry_count(self.entries@);
        }
        self.entries.len()
    }

    /// Whether there is an entry for a client.
    pub fn contains(&self, addr: ClientAddr) -> (r: bool)
        ensures
            r == self@.contains_key(addr),
    {
        match self.find(addr) {
            Some(_) => true,
            None => false,
        }
    }

    /// The entry of a client.
    pub fn get(&self, addr: ClientAddr) -> (r: Option<&V>)
        requires
            self.wf(),
        ensures
            match r {
                Some(v) => self@.contains_key(addr) && *v == self@[addr],
                None => !self@.contains_key(addr),
            },
    {
        match self.find(addr) {
            Some(i) => {
                proof {
                    lemma_entry(self.entries@, addr, i as int);
                }
                Some(&self.entries[i].1)
            },
            None => None,
        }
    }

    /// Takes the entry of a client away.
    pub fn remove(&mut self, addr: ClientAddr)
        requires
            old(self).wf(),
        ensures
            final(self).wf(),
            final(self)@ == old(self)@.remove(addr),
    {
        let ghost before = self.entries@;
        match self.find(addr) {
            Some(i) => {
                self.entries.remove(i);
                proof {
                    let now = self.entries@;
                    assert forall|a: int, b: int| 0 <= a < b < now.len() implies (
                    #[trigger] now[a]).0 != (#[trigger] now[b]).0 by {
                        let x = if a < i {
                            a
                        } else {
                            a + 1
                        };
                        let y = if b < i {
                            b
                        } else {
                            b + 1
                        };
                        assert(now[a] == before[x] && now[b] == before[y]);
                    }
                    assert forall|k: ClientAddr| #[trigger]
                        entries_map(now).contains_key(k) == entries_map(before).remove(
                            addr,
                        ).contains_key(k) && (entries_map(now).contains_key(k)
                            ==> entries_map(now)[k] == entries_map(before)[k]) by {
                        if entries_map(now).contains_key(k) {
                            let a = entry_index(now, k);
                            assert(is_entry(now, k, a));
                            let x = if a < i {
                                a
                            } else {
                                a + 1
                            };
                            assert(is_entry(before, k, x));
                            lemma_entry(now, k, a);
                            lemma_entry(before, k, x);
                            if k == addr {
                                if x < i {
                                    assert(before[x].0 != before[i as int].0);
                                } else {
                                    assert(before[i as int].0 != before[x].0);
                                }
                            }
                        }
                        if entries_map(before).contains_key(k) && k != addr {
                            let x = entry_index(before, k);
                            assert(is_entry(before, k, x));
                            let a = if x < i {
                                x
                            } else {
                                x - 1
                            };
                            assert(is_entry(now, k, a));
                            lemma_entry(now, k, a);
                        }
                    }
                    assert(entries_map(now) =~= entries_map(before).remove(addr));
                }
            },
            None => {
                assert(entries_map(before) =~= entries_map(before).remove(addr));
            },
        }
    }

    /// Writes the entry of a client, in place of the one that it had.
    pub fn insert(&mut self, addr: ClientAddr, value: V)
        requires
            old(self).wf(),
        ensures
            final(self).wf(),
            final(self)@ == old(self)@.insert(addr, value),
    {
        self.remove(addr);
        let ghost before = self.entries@;
        assert(!self@.contains_key(addr));
        self.entries.push((addr, value));
        proof {
            let now = self.entries@;
            assert forall|k: int| !is_entry(before, addr, k) by {
                if is_entry(before, addr, k) {
                    assert(entries_map(before).contains_key(addr));
                }
            }
            assert forall|a: int, b: int| 0 <= a < b < now.len() implies (#[trigger] now[a]).0 != (
            #[trigger] now[b]).0 by {
                assert(now[a] == before[a]);
                if b < before.len() {
                    assert(now[b] == before[b]);
                } else {
                    assert(!is_entry(before, addr, a));
                }
            }
            assert forall|k: ClientAddr| #[trigger]
                entries_map(now).contains_key(k) == entries_map(before).insert(
                    addr,
                    value,
                ).contains_key(k) && (entries_map(now).contains_key(k) ==> entries_map(now)[k]
                    == entries_map(before).insert(addr, value)[k]) by {
                if k == addr {
                    assert(is_entry(now, addr, before.len() as int));
                    lemma_entry(now, addr, before.len() as int);
                } else {
                    if entries_map(now).contains_key(k) {
                        let a = entry_index(now, k);
                        assert(is_entry(now, k, a));
                        assert(is_entry(before, k, a));
                        lemma_entry(now, k, a);
                        lemma_entry(before, k, a);
                    }
                    if entries_map(before).contains_key(k) {
                        let a = entry_index(before, k);
                        assert(is_entry(before, k, a));
                        assert(is_entry(now, k, a));
                        lemma_entry(now, k, a);
                    }
                }
            }
            assert(entries_map(now) =~= entries_map(before).insert(addr, value));
            assert(old(self)@.remove(addr).insert(addr, value) =~= old(self)@.insert(addr, value));
        }
    }
}

/// The answer to a client that asks for audio.
#[derive(Debug, Clone, Copy, PartialEq, Eq, Structural)]
pub enum AudioReply {
    /// It is sent audio already.
    Streaming,
    /// The mappings could not be read.
    Error,
    /// No channel is enabled.
    NoChannels,
    /// As many clients as possible are sent audio already.
    Full,
    /// It is sent audio as soon as it says what it wants.
    Waiting,
    /// It is sent audio from now on.
    Started,
}

impl AudioReply {
    /// The answer as text.
    pub open spec fn spec_text(self) -> Seq<char> {
        match self {
            AudioReply::Streaming => "streaming"@,
            AudioReply::Error => "error"@,
            AudioReply::NoChannels => "no_channels"@,
            AudioReply::Full => "full"@,
            AudioReply::Waiting => "waiting"@,
            AudioReply::Started => "started"@,
        }
    }

    /// The answer as text.
    pub fn text(self) -> (r: &'static str)
        ensures
            r@ == self.spec_text(),
    {
        match self {
            AudioReply::Streaming => "streaming",
            AudioReply::Error => "error",
            AudioReply::NoChannels => "no_channels",
            AudioReply::Full => "full",
            AudioReply::Waiting => "waiting",
            AudioReply::Started => "started",
        }
    }
}

/// What the server knows while it runs. Times are nanoseconds on one clock that never goes back.
pub struct ServerState {
    clients: AddrMap<u64>,
    waiting: AddrMap<()>,
    client_configs: AddrMap<ClientConfig>,
    connections: AddrMap<()>,
    partners: AddrMap<ClientAddr>,
    settings: Settings,
    packets_sent: u64,
}

/// What `ServerState` holds: when each client that is sent audio was last heard of, which clients
/// asked for audio and have yet to say what they want, what clients want, which sockets are open,
/// which socket the stream to a client is paired with, the settings, and how many packets were sent
/// in all.
#[verifier::ext_equal]
pub struct ServerStateView {
    pub clients: Map<ClientAddr, u64>,
    pub waiting: Set<ClientAddr>,
    pub client_configs: Map<ClientAddr, ClientConfigView>,
    pub connections: Set<ClientAddr>,
    pub partners: Map<ClientAddr, ClientAddr>,
    pub settings: SettingsView,
    pub packets_sent: u64,
}

impl View for ServerState {
    type V = ServerStateView;

    closed spec fn view(&self) -> ServerStateView {
        ServerStateView {
            clients: self.clients@,
            waiting: self.waiting@.dom(),
            client_configs: self.client_configs@.map_values(|c: ClientConfig| c@),
            connections: self.connections@.dom(),
            partners: self.partners@,
            settings: self.settings@,
            packets_sent: self.packets_sent,
        }
    }
}

/// The time from `since` to `now`, none where `now` comes first.
pub open spec fn elapsed(since: u64, now: u64) -> u64 {
    if now >= since {
        (now - since) as u64
    } else {
        0
    }
}

/// The mappings, where they could be read.
pub open spec fn listed(mappings: Option<&Vec<ChannelMapping>>) -> Option<
    Seq<ChannelMappingView>,
> {
    match mappings {
        Some(list) => Some(views(list@)),
        None => None,
    }
}

/// Whether no more clients than possible are sent audio, none that has not said what it wants, and
/// none that waits.
pub open spec fn admits_clients(s: ServerStateView) -> bool {
    &&& s.clients.dom().finite()
    &&& s.clients.dom().len() <= MAX_CLIENTS
    &&& forall|addr: ClientAddr| #[trigger]
        s.clients.contains_key(addr) ==> s.client_configs.contains_key(addr)
    &&& forall|addr: ClientAddr| #[trigger]
        s.waiting.contains(addr) ==> !s.clients.contains_key(addr)
}

/// Whether the stream to a client is paired with a socket.
pub open spec fn is_paired(s: ServerStateView, client: ClientAddr, socket: ClientAddr) -> bool {
    s.partners.contains_key(client) && s.partners[client] == socket
}

/// Whether only streams are paired, with open sockets of their hosts, and no two with the same.
pub open spec fn pairs_hold(s: ServerStateView) -> bool {
    &&& forall|c: ClientAddr| #[trigger]
        s.partners.contains_key(c) ==> s.clients.contains_key(c) && s.connections.contains(
            s.partners[c],
        ) && same_host(c, s.partners[c])
    &&& forall|a: ClientAddr, b: ClientAddr|
        #[trigger] s.partners.contains_key(a) && #[trigger] s.partners.contains_key(b) && a != b
            ==> s.partners[a] != s.partners[b]
}

/// Whether a socket of a client's host has said what it wants and is not paired.
pub open spec fn is_free_socket(
    s: ServerStateView,
    socket: ClientAddr,
    client: ClientAddr,
) -> bool {
    &&& s.connections.contains(socket)
    &&& same_host(client, socket)
    &&& s.client_configs.contains_key(socket)
    &&& forall|c: ClientAddr| !#[trigger] is_paired(s, c, socket)
}

/// The state after the stream to a client was paired with a socket.
pub open spec fn after_pairing(
    s: ServerStateView,
    client: ClientAddr,
    socket: ClientAddr,
) -> ServerStateView {
    ServerStateView { partners: s.partners.insert(client, socket), ..s }
}

/// The answer to a client that asks for audio, given the mappings where they could be read.
pub open spec fn audio_reply(
    s: ServerStateView,
    addr: ClientAddr,
    mappings: Option<Seq<ChannelMappingView>>,
) -> AudioReply {
    if s.clients.contains_key(addr) {
        AudioReply::Streaming
    } else {
        match mappings {
            Some(list) => if enabled_count(list) == 0 {
                AudioReply::NoChannels
            } else if s.clients.dom().len() >= MAX_CLIENTS {
                AudioReply::Full
            } else if !s.client_configs.contains_key(addr) {
                AudioReply::Waiting
            } else {
                AudioReply::Started
            },
            None => AudioReply::Error,
        }
    }
}

/// The state after a client asked for audio.
pub open spec fn after_request(
    s: ServerStateView,
    addr: ClientAddr,
    now_ns: u64,
    mappings: Option<Seq<ChannelMappingView>>,
) -> ServerStateView {
    match audio_reply(s, addr, mappings) {
        AudioReply::Started => ServerStateView {
            clients: s.clients.insert(addr, now_ns),
            waiting: s.waiting.remove(addr),
            ..s
        },
        AudioReply::Waiting => ServerStateView { waiting: s.waiting.insert(addr), ..s },
        _ => s,
    }
}

/// The state after a client was heard of.
pub open spec fn after_heartbeat(
    s: ServerStateView,
    addr: ClientAddr,
    now_ns: u64,
) -> ServerStateView {
    if s.clients.contains_key(addr) {
        ServerStateView { clients: s.clients.insert(addr, now_ns), ..s }
    } else {
        s
    }
}

/// The state after the stream to a client ended.
pub open spec fn after_stream(s: ServerStateView, addr: ClientAddr) -> ServerStateView {
    ServerStateView { clients: s.clients.remove(addr), partners: s.partners.remove(addr), ..s }
}

/// The state after all streams ended.
pub open spec fn after_all_streams(s: ServerStateView) -> ServerStateView {
    ServerStateView { clients: Map::empty(), partners: Map::empty(), ..s }
}

/// How long a client that is sent audio was not heard of.
pub open spec fn silence(s: ServerStateView, addr: ClientAddr, now_ns: u64) -> Option<u64> {
    if s.clients.contains_key(addr) {
        Some(elapsed(s.clients[addr], now_ns))
    } else {
        None
    }
}

/// The state after a client said what it wants.
pub open spec fn after_config(
    s: ServerStateView,
    addr: ClientAddr,
    config: ClientConfigView,
) -> ServerStateView {
    ServerStateView { client_configs: s.client_configs.insert(addr, config), ..s }
}

/// The state after a client opened its socket.
pub open spec fn after_connect(s: ServerStateView, addr: ClientAddr) -> ServerStateView {
    ServerStateView { connections: s.connections.insert(addr), ..s }
}

/// The state after a socket was closed, with which no stream is paired any more.
pub open spec fn after_disconnect(s: ServerStateView, addr: ClientAddr) -> ServerStateView {
    ServerStateView {
        connections: s.connections.remove(addr),
        partners: Map::new(
            |c: ClientAddr| s.partners.contains_key(c) && s.partners[c] != addr,
            |c: ClientAddr| s.partners[c],
        ),
        ..s
    }
}

/// The state after a client was heard of over a socket: the one with the socket's address, and the
/// one whose stream is paired with the socket.
pub open spec fn after_socket_heartbeat(
    s: ServerStateView,
    socket: ClientAddr,
    now_ns: u64,
) -> ServerStateView {
    ServerStateView {
        clients: Map::new(
            |c: ClientAddr| s.clients.contains_key(c),
            |c: ClientAddr|
                if c == socket || is_paired(s, c, socket) {
                    now_ns
                } else {
                    s.clients[c]
                },
        ),
        ..s
    }
}

/// Whether the answer to a client that asks for audio, and the state after it, are right: it is
/// answered as if it had said itself what was said over a free socket of its host, and where it is
/// started, its stream is paired with such a socket, if there is one.
pub open spec fn stream_requested(
    s: ServerStateView,
    client: ClientAddr,
    now_ns: u64,
    mappings: Option<Seq<ChannelMappingView>>,
    reply: AudioReply,
    after: ServerStateView,
) -> bool {
    let alone = audio_reply(s, client, mappings);
    if (alone == AudioReply::Started || alone == AudioReply::Waiting) && exists|socket: ClientAddr|
        #[trigger] is_free_socket(s, socket, client) {
        reply == AudioReply::Started && exists|socket: ClientAddr|
            {
                let told = if alone == AudioReply::Started {
                    s
                } else {
                    after_config(s, client, s.client_configs[socket])
                };
                #[trigger] is_free_socket(s, socket, client) && after == after_pairing(
                    after_request(told, client, now_ns, mappings),
                    client,
                    socket,
                )
            }
    } else {
        reply == alone && after == after_request(s, client, now_ns, mappings)
    }
}

/// Whether the client that was started when something was said over a socket, if any, and the state
/// after it, are right.
pub open spec fn socket_configured(
    s: ServerStateView,
    socket: ClientAddr,
    config: ClientConfigView,
    now_ns: u64,
    mappings: Option<Seq<ChannelMappingView>>,
    started: Option<ClientAddr>,
    after: ServerStateView,
) -> bool {
    let noted = after_config(s, socket, config);
    if exists|c: ClientAddr| #[trigger] is_paired(s, c, socket) {
        started is None && exists|c: ClientAddr| #[trigger]
            is_paired(s, c, socket) && after == after_config(noted, c, config)
    } else if exists|c: ClientAddr| #[trigger] s.waiting.contains(c) && same_host(c, socket) {
        exists|c: ClientAddr|
            {
                let told = after_config(noted, c, config);
                let starts = audio_reply(told, c, mappings) == AudioReply::Started;
                let streaming = after_request(told, c, now_ns, mappings);
                &&& #[trigger] s.waiting.contains(c)
                &&& same_host(c, socket)
                &&& s.waiting.contains(socket) ==> c == socket
                &&& started == if starts {
                    Some(c)
                } else {
                    None
                }
                &&& after == if starts && s.connections.contains(socket) {
                    after_pairing(streaming, c, socket)
                } else {
                    streaming
                }
            }
    } else {
        started is None && after == noted
    }
}

/// Sockets are as free as before where neither pairs nor open sockets nor what was said changed.
proof fn lemma_same_sockets(
    a: ServerStateView,
    b: ServerStateView,
    socket: ClientAddr,
    client: ClientAddr,
)
    requires
        a.connections == b.connections,
        a.partners == b.partners,
        a.client_configs == b.client_configs,
    ensures
        is_free_socket(a, socket, client) == is_free_socket(b, socket, client),
{
    assert forall|c: ClientAddr| #[trigger] is_paired(a, c, socket) == is_paired(b, c, socket) by {}
    if is_free_socket(b, socket, client) {
        assert forall|c: ClientAddr| !#[trigger] is_paired(a, c, socket) by {
            assert(!is_paired(b, c, socket));
        }
    }
    if is_free_socket(a, socket, client) {
        assert forall|c: ClientAddr| !#[trigger] is_paired(b, c, socket) by {
            assert(!is_paired(a, c, socket));
        }
    }
}

impl ServerState {
    /// Whether there is at most one entry for each client in every map.
    pub closed spec fn maps_wf(&self) -> bool {
        self.clients.wf() && self.waiting.wf() && self.client_configs.wf()
            && self.connections.wf() && self.partners.wf()
    }

    /// Whether the maps are in order, the clients that are sent audio may be sent it, and the pairs
    /// hold.
    pub open spec fn wf(&self) -> bool {
        self.maps_wf() && admits_clients(self@) && pairs_hold(self@)
    }

    /// A server that no client has asked anything of.
    pub fn new(settings: Settings) -> (r: ServerState)
        ensures
            r.wf(),
            r@ == (ServerStateView {
                clients: Map::empty(),
                waiting: Set::empty(),
                client_configs: Map::empty(),
                connections: Set::empty(),
                partners: Map::empty(),
                settings: settings@,
                packets_sent: 0,
            }),
    {
        let r = ServerState {
            clients: AddrMap::new(),
            waiting: AddrMap::new(),
            client_configs: AddrMap::new(),
            connections: AddrMap::new(),
            partners: AddrMap::new(),
            settings,
            packets_sent: 0,
        };
        assert(r@.client_configs =~= Map::empty());
        assert(r@.waiting =~= Set::empty());
        assert(r@.connections =~= Set::empty());
        r
    }

    /// The settings.
    pub fn settings(&self) -> (r: &Settings)
        ensures
            r@ == self@.settings,
    {
        &self.settings
    }

    /// The channels that clients are shown.
    pub fn api_channels(&self) -> (r: Vec<ChannelConfig>)
        ensures
            views(r@) == self@.settings.channels,
    {
        copy_channels(&self.settings.channels)
    }

    /// Whether a client is sent audio.
    pub fn is_streaming(&self, addr: ClientAddr) -> (r: bool)
        ensures
            r == self@.clients.contains_key(addr),
    {
        self.clients.contains(addr)
    }

    /// How many clients are sent audio.
    pub fn client_count(&self) -> (r: usize)
        requires
            self.wf(),
        ensures
            r == self@.clients.dom().len(),
    {
        self.clients.count()
    }

    /// Whether a client asked for audio and has yet to say what it wants.
    pub fn is_waiting(&self, addr: ClientAddr) -> (r: bool)
        ensures
            r == self@.waiting.contains(addr),
    {
        self.waiting.contains(addr)
    }

    /// Answers a client that asks for audio. It counts among those that are sent audio if there is
    /// anything to send, there is room for it and it has said what it wants; where only the last
    /// is missing, it waits. `mappings` is `None` where they could not be read.
    pub fn request_audio(
        &mut self,
        addr: ClientAddr,
        now_ns: u64,
        mappings: Option<&Vec<ChannelMapping>>,
    ) -> (r: AudioReply)
        requires
            old(self).wf(),
        ensures
            final(self).wf(),
            r == audio_reply(old(self)@, addr, listed(mappings)),
            final(self)@ == after_request(old(self)@, addr, now_ns, listed(mappings)),
    {
        let ghost before = self@;
        if self.clients.contains(addr) {
            return AudioReply::Streaming;
        }
        match mappings {
            Some(list) => {
                if count_enabled(list) == 0 {
                    return AudioReply::NoChannels;
                }
                if self.clients.count() >= MAX_CLIENTS {
                    return AudioReply::Full;
                }
                if !self.client_configs.contains(addr) {
                    self.waiting.insert(addr, ());
                    assert(self@.waiting =~= before.waiting.insert(addr));
                    return AudioReply::Waiting;
                }
                self.waiting.remove(addr);
                assert(self@.waiting =~= before.waiting.remove(addr));
                self.clients.insert(addr, now_ns);
                proof {
                    law_admission_is_kept(before, addr, now_ns, listed(mappings));
                }
                AudioReply::Started
            },
            None => AudioReply::Error,
        }
    }

    /// Starts a client that waits, where it may be sent audio now, and tells whether it did.
    pub fn start_waiting(
        &mut self,
        addr: ClientAddr,
        now_ns: u64,
        mappings: Option<&Vec<ChannelMapping>>,
    ) -> (r: bool)
        requires
            old(self).wf(),
        ensures
            final(self).wf(),
            r == (old(self)@.waiting.contains(addr) && audio_reply(
                old(self)@,
                addr,
                listed(mappings),
            ) == AudioReply::Started),
            final(self)@ == if old(self)@.waiting.contains(addr) {
                after_request(old(self)@, addr, now_ns, listed(mappings))
            } else {
                old(self)@
            },
    {
        if !self.is_waiting(addr) {
            return false;
        }
        match self.request_audio(addr, now_ns, mappings) {
            AudioReply::Started => true,
            _ => false,
        }
    }

    /// Answers a client that lets itself be heard of, and notes the time if it is sent audio.
    pub fn heartbeat(&mut self, addr: ClientAddr, now_ns: u64) -> (r: &'static str)
        requires
            old(self).wf(),
        ensures
            final(self).wf(),
            final(self)@ == after_heartbeat(old(self)@, addr, now_ns),
            r@ == "ok"@,
    {
        let ghost before = self@;
        if self.clients.contains(addr) {
            self.clients.insert(addr, now_ns);
            assert(self@.clients.dom() =~= before.clients.dom());
        }
        proof {
            assert(self@ =~= after_heartbeat(before, addr, now_ns));
            law_pairs_are_kept(before, addr, now_ns, None, before.client_configs[addr]);
        }
        "ok"
    }

    /// How long a client that is sent audio was not heard of.
    pub fn silent_for(&self, addr: ClientAddr, now_ns: u64) -> (r: Option<u64>)
        requires
            self.wf(),
        ensures
            r == silence(self@, addr, now_ns),
    {
        match self.clients.get(addr) {
            Some(since) => Some(
                if now_ns >= *since {
                    now_ns - *since
                } else {
                    0
                },
            ),
            None => None,
        }
    }

    /// Notes that a client is sent no more audio, so that it may ask again.
    pub fn end_stream(&mut self, addr: ClientAddr)
        requires
            old(self).wf(),
        ensures
            final(self).wf(),
            final(self)@ == after_stream(old(self)@, addr),
    {
        let ghost before = self@;
        self.clients.remove(addr);
        self.partners.remove(addr);
        proof {
            assert(self@ =~= after_stream(before, addr));
            law_pairs_are_kept(before, addr, 0, None, before.client_configs[addr]);
        }
    }

    /// Ends the streams to all clients, so that they may ask again, and tells which they were.
    pub fn end_all_streams(&mut self) -> (r: Vec<ClientAddr>)
        requires
            old(self).wf(),
        ensures
            final(self).wf(),
            final(self)@ == after_all_streams(old(self)@),
            final(self)@.clients == Map::<ClientAddr, u64>::empty(),
            r@.no_duplicates(),
            forall|addr: ClientAddr| #[trigger]
                r@.contains(addr) <==> old(self)@.clients.contains_key(addr),
    {
        let ended = self.clients.addresses();
        self.clients = AddrMap::new();
        self.partners = AddrMap::new();
        ended
    }

    /// Notes that a client opened its socket.
    pub fn connect(&mut self, addr: ClientAddr)
        requires
            old(self).wf(),
        ensures
            final(self).wf(),
            final(self)@ == after_connect(old(self)@, addr),
    {
        let ghost before = self@;
        self.connections.insert(addr, ());
        proof {
            assert(self@.connections =~= before.connections.insert(addr));
            assert(self@ =~= after_connect(before, addr));
            law_pairs_are_kept(before, addr, 0, None, before.client_configs[addr]);
        }
    }

    /// Notes that the socket of a client was closed.
    pub fn disconnect(&mut self, addr: ClientAddr)
        requires
            old(self).wf(),
        ensures
            final(self).wf(),
            final(self)@ == after_disconnect(old(self)@, addr),
    {
        let ghost before = self@;
        let paired = self.client_paired_with(addr);
        match paired {
            Some(client) => {
                self.partners.remove(client);
            },
            None => {},
        }
        self.connections.remove(addr);
        proof {
            assert(self@.connections =~= before.connections.remove(addr));
            let expected = after_disconnect(before, addr).partners;
            assert forall|c: ClientAddr| self@.partners.contains_key(c) == #[trigger]
                expected.contains_key(c) by {
                match paired {
                    Some(client) => {
                        assert(before.partners.contains_key(client));
                        if before.partners.contains_key(c) && c != client {
                            assert(before.partners[c] != before.partners[client]);
                        }
                    },
                    None => {
                        assert(!is_paired(before, c, addr));
                    },
                }
            }
            assert(self@.partners =~= expected);
            assert(self@ =~= after_disconnect(before, addr));
            law_pairs_are_kept(before, addr, 0, None, before.client_configs[addr]);
        }
    }

    /// The client whose stream is paired with a socket.
    fn client_paired_with(&self, socket: ClientAddr) -> (r: Option<ClientAddr>)
        requires
            self.maps_wf(),
        ensures
            match r {
                Some(c) => is_paired(self@, c, socket),
                None => forall|c: ClientAddr| !#[trigger] is_paired(self@, c, socket),
            },
    {
        let paired = self.partners.addresses();
        let mut i: usize = 0;
        while i < paired.len()
            invariant
                self.maps_wf(),
                i <= paired.len(),
                forall|c: ClientAddr| #[trigger]
                    paired@.contains(c) <==> self@.partners.contains_key(c),
                forall|k: int| 0 <= k < i ==> !is_paired(self@, #[trigger] paired@[k], socket),
            decreases paired.len() - i,
        {
            assert(paired@.contains(paired@[i as int]));
            match self.partners.get(paired[i]) {
                Some(partner) => {
                    if *partner == socket {
                        return Some(paired[i]);
                    }
                },
                None => {},
            }
            i += 1;
        }
        proof {
            assert forall|c: ClientAddr| !#[trigger] is_paired(self@, c, socket) by {
                if is_paired(self@, c, socket) {
                    assert(paired@.contains(c));
                    let k = paired@.index_of(c);
                    assert(!is_paired(self@, paired@[k], socket));
                }
            }
        }
        None
    }

    /// A socket of a client's host that has said what it wants and is not paired.
    fn free_socket(&self, client: ClientAddr) -> (r: Option<ClientAddr>)
        requires
            self.maps_wf(),
        ensures
            match r {
                Some(socket) => is_free_socket(self@, socket, client),
                None => forall|socket: ClientAddr| !#[trigger]
                    is_free_socket(self@, socket, client),
            },
    {
        let open = self.connections.addresses();
        let mut i: usize = 0;
        while i < open.len()
            invariant
                self.maps_wf(),
                i <= open.len(),
                forall|a: ClientAddr| #[trigger]
                    open@.contains(a) <==> self@.connections.contains(a),
                forall|k: int| 0 <= k < i ==> !is_free_socket(self@, #[trigger] open@[k], client),
            decreases open.len() - i,
        {
            let socket = open[i];
            assert(open@.contains(open@[i as int]));
            if are_of_one_host(client, socket) && self.client_configs.contains(socket) {
                match self.client_paired_with(socket) {
                    Some(c) => {
                        assert(is_paired(self@, c, socket));
                    },
                    None => {
                        return Some(socket);
                    },
                }
            }
            i += 1;
        }
        proof {
            assert forall|socket: ClientAddr| !#[trigger] is_free_socket(self@, socket, client) by {
                if is_free_socket(self@, socket, client) {
                    assert(open@.contains(socket));
                    let k = open@.index_of(socket);
                    assert(!is_free_socket(self@, open@[k], client));
                }
            }
        }
        None
    }

    /// A client of a socket's host that waits: the one with the socket's address before others.
    fn waiting_of_host(&self, socket: ClientAddr) -> (r: Option<ClientAddr>)
        requires
            self.maps_wf(),
        ensures
            match r {
                Some(c) => self@.waiting.contains(c) && same_host(c, socket),
                None => forall|c: ClientAddr| #[trigger]
                    self@.waiting.contains(c) ==> !same_host(c, socket),
            },
            self@.waiting.contains(socket) ==> r == Some(socket),
    {
        if self.waiting.contains(socket) {
            return Some(socket);
        }
        let all = self.waiting.addresses();
        let mut i: usize = 0;
        while i < all.len()
            invariant
                i <= all.len(),
                forall|a: ClientAddr| #[trigger]
                    all@.contains(a) <==> self@.waiting.contains(a),
                !self@.waiting.contains(socket),
                forall|k: int| 0 <= k < i ==> !same_host(#[trigger] all@[k], socket),
            decreases all.len() - i,
        {
            assert(all@.contains(all@[i as int]));
            if are_of_one_host(all[i], socket) {
                return Some(all[i]);
            }
            i += 1;
        }
        proof {
            assert forall|c: ClientAddr| #[trigger] self@.waiting.contains(c) implies !same_host(
                c,
                socket,
            ) by {
                assert(all@.contains(c));
                let k = all@.index_of(c);
                assert(!same_host(all@[k], socket));
            }
        }
        None
    }

    /// Pairs the stream to a client with a socket.
    fn pair(&mut self, client: ClientAddr, socket: ClientAddr)
        requires
            old(self).wf(),
            old(self)@.clients.contains_key(client),
            old(self)@.connections.contains(socket),
            same_host(client, socket),
            forall|c: ClientAddr| !#[trigger] is_paired(old(self)@, c, socket),
        ensures
            final(self).wf(),
            final(self)@ == after_pairing(old(self)@, client, socket),
    {
        let ghost before = self@;
        self.partners.insert(client, socket);
        proof {
            assert(self@ =~= after_pairing(before, client, socket));
            lemma_pairing(before, client, socket);
        }
    }

    /// Answers a client that asks for audio, and pairs its stream with a free socket of its host
    /// where there is one. Where the client has not said what it wants, what was said over that
    /// socket counts.
    pub fn request_stream(
        &mut self,
        client: ClientAddr,
        now_ns: u64,
        mappings: Option<&Vec<ChannelMapping>>,
    ) -> (r: AudioReply)
        requires
            old(self).wf(),
        ensures
            final(self).wf(),
            stream_requested(old(self)@, client, now_ns, listed(mappings), r, final(self)@),
    {
        let ghost before = self@;
        let reply = self.request_audio(client, now_ns, mappings);
        match reply {
            AudioReply::Started => {
                match self.free_socket(client) {
                    Some(socket) => {
                        proof {
                            assert(is_free_socket(before, socket, client)) by {
                                assert forall|c: ClientAddr| !#[trigger]
                                    is_paired(before, c, socket) by {
                                    assert(!is_paired(self@, c, socket));
                                }
                            }
                        }
                        self.pair(client, socket);
                    },
                    None => {
                        assert forall|x: ClientAddr| !#[trigger] is_free_socket(before, x, client) by {
                            lemma_same_sockets(before, self@, x, client);
                        }
                    },
                }
                AudioReply::Started
            },
            AudioReply::Waiting => {
                let ghost asked = self@;
                match self.free_socket(client) {
                    Some(socket) => {
                        proof {
                            lemma_same_sockets(before, asked, socket, client);
                        }
                        match self.config_of(socket) {
                            Some(config) => {
                                self.remember_config(client, config);
                            },
                            None => {},
                        }
                        let started: bool = self.start_waiting(client, now_ns, mappings);
                        assert(started);
                        proof {
                            assert forall|c: ClientAddr| !#[trigger] is_paired(
                                self@,
                                c,
                                socket,
                            ) by {
                                assert(!is_paired(before, c, socket));
                            }
                        }
                        self.pair(client, socket);
                        proof {
                            let told = after_config(
                                before,
                                client,
                                before.client_configs[socket],
                            );
                            assert(self@ =~= after_pairing(
                                after_request(told, client, now_ns, listed(mappings)),
                                client,
                                socket,
                            ));
                        }
                        AudioReply::Started
                    },
                    None => {
                        assert forall|x: ClientAddr| !#[trigger] is_free_socket(before, x, client) by {
                            lemma_same_sockets(before, asked, x, client);
                        }
                        AudioReply::Waiting
                    },
                }
            },
            _ => reply,
        }
    }

    /// Notes what a client says over its socket that it wants. It counts for the stream that is
    /// paired with the socket; where none is, for a client of the host that waits, which is started
    /// if it can be. Tells which client was started.
    pub fn socket_config(
        &mut self,
        socket: ClientAddr,
        config: ClientConfig,
        now_ns: u64,
        mappings: Option<&Vec<ChannelMapping>>,
    ) -> (r: Option<ClientAddr>)
        requires
            old(self).wf(),
        ensures
            final(self).wf(),
            socket_configured(
                old(self)@,
                socket,
                config@,
                now_ns,
                listed(mappings),
                r,
                final(self)@,
            ),
    {
        let ghost before = self@;
        let ghost view = config@;
        let copy = config.clone();
        self.remember_config(socket, config);
        match self.client_paired_with(socket) {
            Some(client) => {
                assert(is_paired(before, client, socket));
                self.remember_config(client, copy);
                None
            },
            None => {
                assert forall|c: ClientAddr| !#[trigger] is_paired(before, c, socket) by {
                    assert(!is_paired(self@, c, socket));
                }
                match self.waiting_of_host(socket) {
                    Some(client) => {
                        assert(before.waiting.contains(client));
                        self.remember_config(client, copy);
                        let ghost told = self@;
                        assert(told == after_config(
                            after_config(before, socket, view),
                            client,
                            view,
                        ));
                        if self.start_waiting(client, now_ns, mappings) {
                            if self.connections.contains(socket) {
                                assert forall|c: ClientAddr| !#[trigger] is_paired(
                                    self@,
                                    c,
                                    socket,
                                ) by {
                                    assert(!is_paired(before, c, socket));
                                }
                                self.pair(client, socket);
                            }
                            Some(client)
                        } else {
                            None
                        }
                    },
                    None => None,
                }
            },
        }
    }

    /// Notes that a client was heard of over its socket.
    pub fn socket_heartbeat(&mut self, socket: ClientAddr, now_ns: u64)
        requires
            old(self).wf(),
        ensures
            final(self).wf(),
            final(self)@ == after_socket_heartbeat(old(self)@, socket, now_ns),
    {
        let ghost before = self@;
        let paired = self.client_paired_with(socket);
        self.heartbeat(socket, now_ns);
        match paired {
            Some(client) => {
                self.heartbeat(client, now_ns);
                assert forall|c: ClientAddr| #[trigger]
                    is_paired(before, c, socket) implies c == client by {
                    assert(before.partners.contains_key(c) && before.partners.contains_key(client));
                }
            },
            None => {},
        }
        assert(self@.clients =~= after_socket_heartbeat(before, socket, now_ns).clients);
    }

    /// The clients that are told of what happens: all whose sockets are open, each once.
    pub fn audience(&self) -> (r: Vec<ClientAddr>)
        requires
            self.wf(),
        ensures
            r@.no_duplicates(),
            forall|addr: ClientAddr| #[trigger]
                r@.contains(addr) <==> self@.connections.contains(addr),
    {
        self.connections.addresses()
    }

    /// Counts a packet that was sent to any client.
    pub fn count_packet(&mut self)
        requires
            old(self).wf(),
        ensures
            final(self).wf(),
            final(self)@ == (ServerStateView {
                packets_sent: if old(self)@.packets_sent < u64::MAX {
                    (old(self)@.packets_sent + 1) as u64
                } else {
                    u64::MAX
                },
                ..old(self)@
            }),
    {
        self.packets_sent = self.packets_sent.saturating_add(1);
    }

    /// How many packets were sent to all clients.
    pub fn packets_sent(&self) -> (r: u64)
        ensures
            r == self@.packets_sent,
    {
        self.packets_sent
    }

    /// Notes what a client asked for.
    pub fn remember_config(&mut self, addr: ClientAddr, config: ClientConfig)
        requires
            old(self).wf(),
        ensures
            final(self).wf(),
            final(self)@ == after_config(old(self)@, addr, config@),
    {
        let ghost before = self@;
        self.client_configs.insert(addr, config);
        proof {
            assert(self@.client_configs =~= before.client_configs.insert(addr, config@));
            assert(self@ =~= after_config(before, addr, config@));
            law_pairs_are_kept(before, addr, 0, None, config@);
        }
    }

    /// Answers a client that says what it wants. `saved` tells whether that could be stored; if
    /// not, it is not noted either.
    pub fn client_config(&mut self, addr: ClientAddr, config: ClientConfig, saved: bool) -> (r:
        &'static str)
        requires
            old(self).wf(),
        ensures
            final(self).wf(),
            r@ == if saved {
                "ok"@
            } else {
                "error"@
            },
            final(self)@ == if saved {
                after_config(old(self)@, addr, config@)
            } else {
                old(self)@
            },
    {
        if !saved {
            return "error";
        }
        self.remember_config(addr, config);
        "ok"
    }

    /// What a client asked for.
    pub fn config_of(&self, addr: ClientAddr) -> (r: Option<ClientConfig>)
        requires
            self.wf(),
        ensures
            match r {
                Some(c) => self@.client_configs.contains_key(addr) && c@
                    == self@.client_configs[addr],
                None => !self@.client_configs.contains_key(addr),
            },
    {
        match self.client_configs.get(addr) {
            Some(config) => Some(config.clone()),
            None => None,
        }
    }
}

/// A client that was started is not started a second time while it is sent audio.
pub proof fn law_streams_once(
    s: ServerStateView,
    addr: ClientAddr,
    now_ns: u64,
    mappings: Option<Seq<ChannelMappingView>>,
    later_ns: u64,
    later_mappings: Option<Seq<ChannelMappingView>>,
)
    requires
        audio_reply(s, addr, mappings) == AudioReply::Started,
    ensures
        audio_reply(after_request(s, addr, now_ns, mappings), addr, later_mappings)
            == AudioReply::Streaming,
        after_request(
            after_request(s, addr, now_ns, mappings),
            addr,
            later_ns,
            later_mappings,
        ) == after_request(s, addr, now_ns, mappings),
{
}

/// A request that is not answered with a start starts nobody, and one that is refused leaves
/// everything as it was.
pub proof fn law_refused_request_changes_nothing(
    s: ServerStateView,
    addr: ClientAddr,
    now_ns: u64,
    mappings: Option<Seq<ChannelMappingView>>,
)
    requires
        audio_reply(s, addr, mappings) != AudioReply::Started,
    ensures
        after_request(s, addr, now_ns, mappings).clients == s.clients,
        audio_reply(s, addr, mappings) != AudioReply::Waiting ==> after_request(
            s,
            addr,
            now_ns,
            mappings,
        ) == s,
{
}

/// A further client is not started where as many as possible are sent audio.
pub proof fn law_no_room_no_start(
    s: ServerStateView,
    addr: ClientAddr,
    mappings: Option<Seq<ChannelMappingView>>,
)
    requires
        !s.clients.contains_key(addr),
        s.clients.dom().len() >= MAX_CLIENTS,
    ensures
        audio_reply(s, addr, mappings) != AudioReply::Started,
{
}

/// A request never leaves more clients than possible with audio, nor one that has not said what
/// it wants.
pub proof fn law_admission_is_kept(
    s: ServerStateView,
    addr: ClientAddr,
    now_ns: u64,
    mappings: Option<Seq<ChannelMappingView>>,
)
    requires
        admits_clients(s),
    ensures
        admits_clients(after_request(s, addr, now_ns, mappings)),
{
    let after = after_request(s, addr, now_ns, mappings);
    if audio_reply(s, addr, mappings) == AudioReply::Started {
        assert(after.clients.dom() =~= s.clients.dom().insert(addr));
    }
}

/// Nothing else that happens does either.
pub proof fn law_admission_is_kept_otherwise(
    s: ServerStateView,
    addr: ClientAddr,
    now_ns: u64,
    config: ClientConfigView,
)
    requires
        admits_clients(s),
    ensures
        admits_clients(after_heartbeat(s, addr, now_ns)),
        admits_clients(after_socket_heartbeat(s, addr, now_ns)),
        admits_clients(after_stream(s, addr)),
        admits_clients(after_all_streams(s)),
        admits_clients(after_config(s, addr, config)),
        admits_clients(after_connect(s, addr)),
        admits_clients(after_disconnect(s, addr)),
{
    assert(after_heartbeat(s, addr, now_ns).clients.dom() =~= s.clients.dom());
    assert(after_socket_heartbeat(s, addr, now_ns).clients.dom() =~= s.clients.dom());
    assert(after_stream(s, addr).clients.dom() =~= s.clients.dom().remove(addr));
    assert(after_all_streams(s).clients.dom() =~= Set::empty());
}

/// Whatever happens, only streams are paired, with open sockets of their hosts, and no two with the
/// same.
pub proof fn law_pairs_are_kept(
    s: ServerStateView,
    addr: ClientAddr,
    now_ns: u64,
    mappings: Option<Seq<ChannelMappingView>>,
    config: ClientConfigView,
)
    requires
        pairs_hold(s),
    ensures
        pairs_hold(after_request(s, addr, now_ns, mappings)),
        pairs_hold(after_heartbeat(s, addr, now_ns)),
        pairs_hold(after_socket_heartbeat(s, addr, now_ns)),
        pairs_hold(after_stream(s, addr)),
        pairs_hold(after_all_streams(s)),
        pairs_hold(after_config(s, addr, config)),
        pairs_hold(after_connect(s, addr)),
        pairs_hold(after_disconnect(s, addr)),
{
}

/// A free socket can be paired with a stream of its host.
pub proof fn law_free_sockets_can_be_paired(
    s: ServerStateView,
    client: ClientAddr,
    socket: ClientAddr,
)
    requires
        pairs_hold(s),
        s.clients.contains_key(client),
        is_free_socket(s, socket, client),
    ensures
        pairs_hold(after_pairing(s, client, socket)),
{
    lemma_pairing(s, client, socket);
}

proof fn lemma_pairing(s: ServerStateView, client: ClientAddr, socket: ClientAddr)
    requires
        pairs_hold(s),
        s.clients.contains_key(client),
        s.connections.contains(socket),
        same_host(client, socket),
        forall|c: ClientAddr| !#[trigger] is_paired(s, c, socket),
    ensures
        pairs_hold(after_pairing(s, client, socket)),
{
    let now = after_pairing(s, client, socket);
    assert forall|a: ClientAddr, b: ClientAddr|
        #[trigger] now.partners.contains_key(a) && #[trigger] now.partners.contains_key(b) && a
            != b implies now.partners[a] != now.partners[b] by {
        assert(!is_paired(s, a, socket) && !is_paired(s, b, socket));
    }
}

/// Clients of one host are told apart: one that is sent audio does not stand for another.
pub proof fn law_one_host_may_have_several_clients(
    s: ServerStateView,
    client: ClientAddr,
    other: ClientAddr,
    now_ns: u64,
    mappings: Option<Seq<ChannelMappingView>>,
    later_mappings: Option<Seq<ChannelMappingView>>,
)
    requires
        same_host(client, other),
        client != other,
        !s.clients.contains_key(other),
    ensures
        audio_reply(after_request(s, client, now_ns, mappings), other, later_mappings)
            != AudioReply::Streaming,
{
}

/// What is heard over a socket keeps the stream that is paired with it, and no other but that of
/// the socket's own address.
pub proof fn law_socket_keeps_its_stream(
    s: ServerStateView,
    client: ClientAddr,
    other: ClientAddr,
    socket: ClientAddr,
    heard_ns: u64,
    now_ns: u64,
)
    requires
        pairs_hold(s),
        is_paired(s, client, socket),
        other != client,
        other != socket,
    ensures
        silence(after_socket_heartbeat(s, socket, heard_ns), client, now_ns) == Some(
            elapsed(heard_ns, now_ns),
        ),
        silence(after_socket_heartbeat(s, socket, heard_ns), other, now_ns) == silence(
            s,
            other,
            now_ns,
        ),
{
    assert(s.partners.contains_key(client));
    if s.partners.contains_key(other) {
        assert(s.partners[other] != s.partners[client]);
    }
}

/// A client that says over its socket what it wants, and then asks for audio from another port, is
/// started where there is anything to send and room for it, and its stream is paired.
pub proof fn law_socket_first(
    s: ServerStateView,
    socket: ClientAddr,
    config: ClientConfigView,
    client: ClientAddr,
    now_ns: u64,
    mappings: Option<Seq<ChannelMappingView>>,
    reply: AudioReply,
    after: ServerStateView,
)
    requires
        s.connections.contains(socket),
        same_host(client, socket),
        forall|c: ClientAddr| !#[trigger] is_paired(s, c, socket),
        audio_reply(s, client, mappings) == AudioReply::Waiting || audio_reply(s, client, mappings)
            == AudioReply::Started,
        stream_requested(after_config(s, socket, config), client, now_ns, mappings, reply, after),
    ensures
        reply == AudioReply::Started,
        after.clients == s.clients.insert(client, now_ns),
        after.partners.contains_key(client),
{
    let told = after_config(s, socket, config);
    assert(is_free_socket(told, socket, client)) by {
        assert forall|c: ClientAddr| !#[trigger] is_paired(told, c, socket) by {
            assert(!is_paired(s, c, socket));
        }
    }
}

/// A client that asks for audio first, and then says over its socket what it wants, is started
/// then. Where several clients of the host wait, one of them is.
pub proof fn law_request_first(
    s: ServerStateView,
    socket: ClientAddr,
    config: ClientConfigView,
    client: ClientAddr,
    now_ns: u64,
    mappings: Seq<ChannelMappingView>,
    started: Option<ClientAddr>,
    after: ServerStateView,
)
    requires
        s.waiting.contains(client),
        same_host(client, socket),
        forall|c: ClientAddr| !#[trigger] is_paired(s, c, socket),
        admits_clients(s),
        s.clients.dom().len() < MAX_CLIENTS,
        enabled_count(mappings) > 0,
        socket_configured(s, socket, config, now_ns, Some(mappings), started, after),
    ensures
        started matches Some(c) && s.waiting.contains(c) && same_host(c, socket) && after.clients
            == s.clients.insert(c, now_ns) && (s.connections.contains(socket) ==> is_paired(
            after,
            c,
            socket,
        )),
{
    assert(s.waiting.contains(client) && same_host(client, socket));
}

/// A client is not sent audio before it has said what it wants.
pub proof fn law_no_config_no_start(
    s: ServerStateView,
    addr: ClientAddr,
    mappings: Option<Seq<ChannelMappingView>>,
)
    ensures
        audio_reply(s, addr, mappings) == AudioReply::Started ==> s.client_configs.contains_key(
            addr,
        ),
{
}

/// A client that asked for audio first is started when it says what it wants.
pub proof fn law_config_starts_the_stream(
    s: ServerStateView,
    addr: ClientAddr,
    asked_ns: u64,
    now_ns: u64,
    mappings: Option<Seq<ChannelMappingView>>,
    config: ClientConfigView,
)
    requires
        audio_reply(s, addr, mappings) == AudioReply::Waiting,
    ensures
        ({
            let asked = after_request(s, addr, asked_ns, mappings);
            let told = after_config(asked, addr, config);
            &&& asked.clients == s.clients
            &&& told.waiting.contains(addr)
            &&& audio_reply(told, addr, mappings) == AudioReply::Started
            &&& after_request(told, addr, now_ns, mappings).clients == s.clients.insert(
                addr,
                now_ns,
            )
            &&& !after_request(told, addr, now_ns, mappings).waiting.contains(addr)
        }),
{
}

/// Where all streams ended, none goes on, and the clients are known as before in all else.
pub proof fn law_all_streams_end(s: ServerStateView, addr: ClientAddr, now_ns: u64)
    ensures
        heartbeat_decision(silence(after_all_streams(s), addr, now_ns))
            == StreamDecision::NotRegistered,
        after_all_streams(s).connections == s.connections,
        after_all_streams(s).client_configs == s.client_configs,
{
}

/// A client that was heard of goes on being sent audio for less than thirty seconds, and no
/// longer.
pub proof fn law_heartbeat_keeps_the_stream(
    s: ServerStateView,
    addr: ClientAddr,
    heard_ns: u64,
    now_ns: u64,
)
    requires
        s.clients.contains_key(addr),
        heard_ns <= now_ns,
    ensures
        heartbeat_decision(silence(after_heartbeat(s, addr, heard_ns), addr, now_ns)) == (if now_ns
            - heard_ns < HEARTBEAT_TIMEOUT_NS {
            StreamDecision::Continue
        } else {
            StreamDecision::HeartbeatTimeout
        }),
{
}

/// The thirty seconds run from the start of the stream where nothing was heard since.
pub proof fn law_silent_client_is_dropped(
    s: ServerStateView,
    addr: ClientAddr,
    start_ns: u64,
    mappings: Option<Seq<ChannelMappingView>>,
    now_ns: u64,
)
    requires
        audio_reply(s, addr, mappings) == AudioReply::Started,
        start_ns + HEARTBEAT_TIMEOUT_NS <= now_ns,
    ensures
        heartbeat_decision(silence(after_request(s, addr, start_ns, mappings), addr, now_ns))
            == StreamDecision::HeartbeatTimeout,
{
}

/// A heartbeat starts no stream.
pub proof fn law_heartbeat_starts_nothing(s: ServerStateView, addr: ClientAddr, now_ns: u64)
    ensures
        after_heartbeat(s, addr, now_ns).clients.dom() == s.clients.dom(),
{
    assert(after_heartbeat(s, addr, now_ns).clients.dom() =~= s.clients.dom());
}

/// A client whose stream ended, alone or with all others, is unknown to the stream, and is started
/// when it asks again.
pub proof fn law_client_may_return(
    s: ServerStateView,
    addr: ClientAddr,
    now_ns: u64,
    mappings: Seq<ChannelMappingView>,
)
    requires
        admits_clients(s),
        s.clients.contains_key(addr),
        enabled_count(mappings) > 0,
    ensures
        heartbeat_decision(silence(after_stream(s, addr), addr, now_ns))
            == StreamDecision::NotRegistered,
        audio_reply(after_stream(s, addr), addr, Some(mappings)) == AudioReply::Started,
        audio_reply(after_all_streams(s), addr, Some(mappings)) == AudioReply::Started,
{
    assert(after_stream(s, addr).clients.dom() =~= s.clients.dom().remove(addr));
    assert(after_all_streams(s).clients.dom() =~= Set::empty());
}

/// What one client does changes neither how long another was silent nor what another wants.
pub proof fn law_clients_are_independent(
    s: ServerStateView,
    addr: ClientAddr,
    other: ClientAddr,
    now_ns: u64,
    then_ns: u64,
    mappings: Option<Seq<ChannelMappingView>>,
    config: ClientConfigView,
)
    requires
        addr != other,
    ensures
        silence(after_request(s, addr, now_ns, mappings), other, then_ns) == silence(
            s,
            other,
            then_ns,
        ),
        silence(after_heartbeat(s, addr, now_ns), other, then_ns) == silence(s, other, then_ns),
        silence(after_stream(s, addr), other, then_ns) == silence(s, other, then_ns),
        silence(after_config(s, addr, config), other, then_ns) == silence(s, other, then_ns),
        after_config(s, addr, config).client_configs.contains_key(other)
            == s.client_configs.contains_key(other),
        after_config(s, addr, config).client_configs[other] == s.client_configs[other],
{
}

/// A client whose socket is open is told of what happens until the socket is closed, whatever
/// other clients do and whether it is sent audio or not.
pub proof fn law_open_sockets_are_told(
    s: ServerStateView,
    addr: ClientAddr,
    other: ClientAddr,
    now_ns: u64,
    mappings: Option<Seq<ChannelMappingView>>,
    config: ClientConfigView,
)
    ensures
        after_connect(s, addr).connections.contains(addr),
        !after_disconnect(s, addr).connections.contains(addr),
        other != addr ==> after_connect(s, other).connections.contains(addr)
            == s.connections.contains(addr),
        other != addr ==> after_disconnect(s, other).connections.contains(addr)
            == s.connections.contains(addr),
        after_request(s, other, now_ns, mappings).connections == s.connections,
        after_heartbeat(s, other, now_ns).connections == s.connections,
        after_socket_heartbeat(s, other, now_ns).connections == s.connections,
        after_stream(s, other).connections == s.connections,
        after_all_streams(s).connections == s.connections,
        after_config(s, other, config).connections == s.connections,
{
}

/// What a client asked for is what is known of it, and the last request counts.
pub proof fn law_config_reads_back(
    s: ServerStateView,
    addr: ClientAddr,
    config: ClientConfigView,
)
    ensures
        after_config(s, addr, config).client_configs.contains_key(addr),
        after_config(s, addr, config).client_configs[addr] == config,
{
}

/// Whether a channel is to be sent at all.
pub open spec fn any_enabled(mappings: Option<&Vec<ChannelMapping>>) -> bool {
    mappings matches Some(list) && exists|i: int|
        0 <= i < list@.len() && (#[trigger] list@[i]).enabled
}

proof fn lemma_any_listed(mappings: Option<&Vec<ChannelMapping>>)
    ensures
        any_enabled(mappings) <==> (listed(mappings) matches Some(list) && enabled_count(list)
            > 0),
{
    match mappings {
        Some(list) => {
            lemma_any_enabled(list@);
        },
        None => {},
    }
}

/// A client that is sent audio is told so. Any other is told of an error exactly if the mappings could
/// not be read, that there are no channels exactly if none is enabled, that there is no room exactly
/// if twenty clients are sent audio already; and else it is started if it has said what it wants, and
/// waits if it has not.
pub proof fn law_every_request_is_answered_rightly(
    s: &mut ServerState,
    addr: ClientAddr,
    now_ns: u64,
    mappings: Option<&Vec<ChannelMapping>>,
    r: AudioReply,
)
    requires
        call_ensures(ServerState::request_audio, (s, addr, now_ns, mappings), r),
        old(s).wf(),
    ensures
        ({
            let before = old(s)@;
            let new = !before.clients.contains_key(addr);
            let room = before.clients.dom().len() < 20;
            let known = before.client_configs.contains_key(addr);
            &&& r == AudioReply::Streaming <==> !new
            &&& r == AudioReply::Error <==> new && mappings is None
            &&& r == AudioReply::NoChannels <==> new && mappings is Some && !any_enabled(mappings)
            &&& r == AudioReply::Full <==> new && any_enabled(mappings) && !room
            &&& r == AudioReply::Waiting <==> new && any_enabled(mappings) && room && !known
            &&& r == AudioReply::Started <==> new && any_enabled(mappings) && room && known
        }),
{
    lemma_any_listed(mappings);
}

/// A client that is started is sent audio from then on and waits no longer, one that waits is noted
/// as waiting, and a request changes nothing else.
pub proof fn law_requests_are_noted(
    s: &mut ServerState,
    addr: ClientAddr,
    now_ns: u64,
    mappings: Option<&Vec<ChannelMapping>>,
    r: AudioReply,
    other: ClientAddr,
)
    requires
        call_ensures(ServerState::request_audio, (s, addr, now_ns, mappings), r),
        old(s).wf(),
    ensures
        ({
            let before = old(s)@;
            let after = final(s)@;
            &&& r == AudioReply::Started ==> after.clients.contains_key(addr)
                && after.clients[addr] == now_ns && !after.waiting.contains(addr)
            &&& r != AudioReply::Started ==> after.clients == before.clients
            &&& r == AudioReply::Waiting ==> after.waiting.contains(addr)
            &&& r != AudioReply::Started && r != AudioReply::Waiting ==> after.waiting
                == before.waiting
            &&& other != addr ==> {
                &&& after.clients.contains_key(other) == before.clients.contains_key(other)
                &&& before.clients.contains_key(other) ==> after.clients[other]
                    == before.clients[other]
                &&& after.waiting.contains(other) == before.waiting.contains(other)
            }
            &&& after.client_configs == before.client_configs
            &&& after.connections == before.connections
            &&& after.partners == before.partners
            &&& after.settings == before.settings
            &&& after.packets_sent == before.packets_sent
        }),
{
}

/// Whether a socket is open on a client's host, over which it was said what is wanted, and which
/// serves no stream.
pub open spec fn serves_nobody(
    s: ServerStateView,
    socket: ClientAddr,
    client: ClientAddr,
) -> bool {
    &&& s.connections.contains(socket)
    &&& s.client_configs.contains_key(socket)
    &&& socket.host == client.host && socket.long == client.long && socket.zone == client.zone
    &&& forall|c: ClientAddr| #[trigger] s.partners.contains_key(c) ==> s.partners[c] != socket
}

proof fn lemma_serves_nobody(s: ServerStateView, socket: ClientAddr, client: ClientAddr)
    ensures
        serves_nobody(s, socket, client) <==> is_free_socket(s, socket, client),
{
    if serves_nobody(s, socket, client) {
        assert forall|c: ClientAddr| !#[trigger] is_paired(s, c, socket) by {}
    }
    if is_free_socket(s, socket, client) {
        assert forall|c: ClientAddr| #[trigger] s.partners.contains_key(c) implies s.partners[c]
            != socket by {
            assert(!is_paired(s, c, socket));
        }
    }
}

/// A client that asks for audio from another port than that of its socket is answered as one that
/// has said what it wants, where that was said over a socket of its host that serves nobody. What is
/// refused changes nothing.
pub proof fn law_every_stream_request_is_answered_rightly(
    s: &mut ServerState,
    addr: ClientAddr,
    now_ns: u64,
    mappings: Option<&Vec<ChannelMapping>>,
    r: AudioReply,
)
    requires
        call_ensures(ServerState::request_stream, (s, addr, now_ns, mappings), r),
        old(s).wf(),
    ensures
        ({
            let before = old(s)@;
            let new = !before.clients.contains_key(addr);
            let room = before.clients.dom().len() < 20;
            let known = before.client_configs.contains_key(addr) || exists|socket: ClientAddr|
                #[trigger] serves_nobody(before, socket, addr);
            &&& r == AudioReply::Streaming <==> !new
            &&& r == AudioReply::Error <==> new && mappings is None
            &&& r == AudioReply::NoChannels <==> new && mappings is Some && !any_enabled(mappings)
            &&& r == AudioReply::Full <==> new && any_enabled(mappings) && !room
            &&& r == AudioReply::Waiting <==> new && any_enabled(mappings) && room && !known
            &&& r == AudioReply::Started <==> new && any_enabled(mappings) && room && known
            &&& r != AudioReply::Started && r != AudioReply::Waiting ==> final(s)@ == before
            &&& r == AudioReply::Waiting ==> final(s)@ == (ServerStateView {
                waiting: before.waiting.insert(addr),
                ..before
            })
        }),
{
    let before = old(s)@;
    lemma_any_listed(mappings);
    assert forall|socket: ClientAddr| #[trigger] serves_nobody(before, socket, addr)
        == is_free_socket(before, socket, addr) by {
        lemma_serves_nobody(before, socket, addr);
    }
    if exists|socket: ClientAddr| #[trigger] is_free_socket(before, socket, addr) {
        let socket = choose|socket: ClientAddr| #[trigger] is_free_socket(before, socket, addr);
        assert(serves_nobody(before, socket, addr));
    }
    if exists|socket: ClientAddr| #[trigger] serves_nobody(before, socket, addr) {
        let socket = choose|socket: ClientAddr| #[trigger] serves_nobody(before, socket, addr);
        assert(is_free_socket(before, socket, addr));
    }
}

/// A client that is started is sent audio from then on. Its stream is paired with a socket of its
/// host that served nobody, where there was one, and what was said over that socket counts where the
/// client itself had said nothing. All others stay as they were.
pub proof fn law_started_stream_is_served_by_a_socket(
    s: &mut ServerState,
    addr: ClientAddr,
    now_ns: u64,
    mappings: Option<&Vec<ChannelMapping>>,
    other: ClientAddr,
)
    requires
        call_ensures(
            ServerState::request_stream,
            (s, addr, now_ns, mappings),
            AudioReply::Started,
        ),
        old(s).wf(),
    ensures
        ({
            let before = old(s)@;
            let after = final(s)@;
            &&& after.clients == before.clients.insert(addr, now_ns)
            &&& after.waiting == before.waiting.remove(addr)
            &&& after.connections == before.connections
            &&& after.settings == before.settings
            &&& after.packets_sent == before.packets_sent
            &&& after.client_configs.contains_key(addr)
            &&& before.client_configs.contains_key(addr) ==> after.client_configs
                == before.client_configs
            &&& after.partners.contains_key(addr) ==> serves_nobody(
                before,
                after.partners[addr],
                addr,
            ) && (!before.client_configs.contains_key(addr) ==> after.client_configs
                == before.client_configs.insert(addr, before.client_configs[after.partners[addr]]))
            &&& after.partners.contains_key(addr) <==> exists|socket: ClientAddr|
                #[trigger] serves_nobody(before, socket, addr)
            &&& other != addr ==> after.partners.contains_key(other)
                == before.partners.contains_key(other) && after.partners[other]
                == before.partners[other]
        }),
{
    let before = old(s)@;
    let after = final(s)@;
    assert forall|socket: ClientAddr| #[trigger] serves_nobody(before, socket, addr)
        == is_free_socket(before, socket, addr) by {
        lemma_serves_nobody(before, socket, addr);
    }
    law_every_stream_request_is_answered_rightly(s, addr, now_ns, mappings, AudioReply::Started);
    let list = listed(mappings);
    let alone = audio_reply(before, addr, list);
    assert(!before.partners.contains_key(addr));
    if exists|socket: ClientAddr| #[trigger] is_free_socket(before, socket, addr) {
        assert(alone == AudioReply::Started || alone == AudioReply::Waiting) by {
            lemma_any_listed(mappings);
        }
        let socket = choose|socket: ClientAddr|
            {
                let told = if alone == AudioReply::Started {
                    before
                } else {
                    after_config(before, addr, before.client_configs[socket])
                };
                #[trigger] is_free_socket(before, socket, addr) && after == after_pairing(
                    after_request(told, addr, now_ns, list),
                    addr,
                    socket,
                )
            };
        assert(is_free_socket(before, socket, addr));
        assert(serves_nobody(before, socket, addr));
        assert(after.partners[addr] == socket);
    } else {
        assert forall|socket: ClientAddr| !#[trigger] serves_nobody(before, socket, addr) by {
            assert(!is_free_socket(before, socket, addr));
        }
    }
}

/// What a client says over a socket is what is known of the socket's address, and of the client whose
/// stream the socket serves.
pub proof fn law_what_a_socket_says_is_kept(
    s: &mut ServerState,
    socket: ClientAddr,
    config: ClientConfig,
    now_ns: u64,
    mappings: Option<&Vec<ChannelMapping>>,
    r: Option<ClientAddr>,
)
    requires
        call_ensures(ServerState::socket_config, (s, socket, config, now_ns, mappings), r),
        old(s).wf(),
    ensures
        final(s)@.client_configs.contains_key(socket),
        final(s)@.client_configs[socket] == config@,
        forall|c: ClientAddr| #[trigger]
            old(s)@.partners.contains_key(c) && old(s)@.partners[c] == socket
                ==> final(s)@.client_configs.contains_key(c) && final(s)@.client_configs[c]
                == config@ && r is None && final(s)@.clients == old(s)@.clients
                && final(s)@.waiting == old(s)@.waiting && final(s)@.partners
                == old(s)@.partners,
        forall|c: ClientAddr| #[trigger]
            final(s)@.client_configs.contains_key(c) ==> final(s)@.client_configs[c] == config@
                && (c.host == socket.host && c.long == socket.long && c.zone == socket.zone) || (
            old(s)@.client_configs.contains_key(c) && final(s)@.client_configs[c]
                == old(s)@.client_configs[c]),
        forall|c: ClientAddr| #[trigger]
            old(s)@.client_configs.contains_key(c) ==> final(s)@.client_configs.contains_key(c),
        final(s)@.connections == old(s)@.connections,
        final(s)@.settings == old(s)@.settings,
        final(s)@.packets_sent == old(s)@.packets_sent,
{
    let before = old(s)@;
    let after = final(s)@;
    assert forall|c: ClientAddr| #[trigger]
        before.partners.contains_key(c) && before.partners[c]
            == socket implies after.client_configs.contains_key(c) && after.client_configs[c]
        == config@ && r is None && after.clients == before.clients && after.waiting
        == before.waiting && after.partners == before.partners by {
        assert(is_paired(before, c, socket));
        assert forall|d: ClientAddr| #[trigger] is_paired(before, d, socket) implies d == c by {
            assert(before.partners.contains_key(d));
        }
    }
}

/// Something said over a socket that serves nobody starts a client of its host that waits, where a
/// channel is enabled and there is room, with what was said; and the socket serves the stream. Where
/// no client of the host waits, or there is nothing to send or no room, nobody is started.
pub proof fn law_waiting_client_is_started_by_its_socket(
    s: &mut ServerState,
    socket: ClientAddr,
    config: ClientConfig,
    now_ns: u64,
    mappings: Option<&Vec<ChannelMapping>>,
    r: Option<ClientAddr>,
)
    requires
        call_ensures(ServerState::socket_config, (s, socket, config, now_ns, mappings), r),
        old(s).wf(),
        forall|c: ClientAddr| #[trigger]
            old(s)@.partners.contains_key(c) ==> old(s)@.partners[c] != socket,
    ensures
        r is Some <==> any_enabled(mappings) && old(s)@.clients.dom().len() < 20 && exists|
            c: ClientAddr,
        | #[trigger]
            old(s)@.waiting.contains(c) && c.host == socket.host && c.long == socket.long && c.zone
                == socket.zone,
        r matches Some(c) ==> {
            &&& old(s)@.waiting.contains(c)
            &&& c.host == socket.host && c.long == socket.long && c.zone == socket.zone
            &&& final(s)@.clients == old(s)@.clients.insert(c, now_ns)
            &&& final(s)@.waiting == old(s)@.waiting.remove(c)
            &&& final(s)@.client_configs[c] == config@
            &&& old(s)@.connections.contains(socket) ==> final(s)@.partners
                == old(s)@.partners.insert(c, socket)
            &&& !old(s)@.connections.contains(socket) ==> final(s)@.partners == old(s)@.partners
        },
        old(s)@.waiting.contains(socket) && r is Some ==> r == Some(socket),
        r is None ==> final(s)@.clients == old(s)@.clients && final(s)@.partners
            == old(s)@.partners && final(s)@.waiting == old(s)@.waiting,
{
    let before = old(s)@;
    lemma_any_listed(mappings);
    assert forall|c: ClientAddr| !#[trigger] is_paired(before, c, socket) by {}
    let waits = exists|c: ClientAddr| #[trigger]
        before.waiting.contains(c) && same_host(c, socket);
    if waits {
        let c = choose|c: ClientAddr|
            {
                let told = after_config(after_config(before, socket, config@), c, config@);
                let starts = audio_reply(told, c, listed(mappings)) == AudioReply::Started;
                let streaming = after_request(told, c, now_ns, listed(mappings));
                &&& #[trigger] before.waiting.contains(c)
                &&& same_host(c, socket)
                &&& before.waiting.contains(socket) ==> c == socket
                &&& r == if starts {
                    Some(c)
                } else {
                    None
                }
                &&& final(s)@ == if starts && before.connections.contains(socket) {
                    after_pairing(streaming, c, socket)
                } else {
                    streaming
                }
            };
        assert(before.waiting.contains(c) && same_host(c, socket));
        assert(!before.clients.contains_key(c));
        assert(before.waiting.insert(c) =~= before.waiting);
    }
}

/// A sign of life over a socket counts for the client with the socket's address and for the one whose
/// stream the socket serves, where they are sent audio; for nobody else, and it changes nothing else.
pub proof fn law_socket_is_a_sign_of_life(
    s: &mut ServerState,
    socket: ClientAddr,
    now_ns: u64,
    c: ClientAddr,
)
    requires
        call_ensures(ServerState::socket_heartbeat, (s, socket, now_ns), ()),
        old(s).wf(),
    ensures
        final(s)@.clients.contains_key(c) <==> old(s)@.clients.contains_key(c),
        old(s)@.clients.contains_key(c) ==> final(s)@.clients[c] == (if c == socket || (
        old(s)@.partners.contains_key(c) && old(s)@.partners[c] == socket) {
            now_ns
        } else {
            old(s)@.clients[c]
        }),
        final(s)@ == (ServerStateView { clients: final(s)@.clients, ..old(s)@ }),
{
}

/// A sign of life counts for the client that gives it, where it is sent audio; for nobody else, and it
/// changes nothing else.
pub proof fn law_heartbeat_is_a_sign_of_life(
    s: &mut ServerState,
    addr: ClientAddr,
    now_ns: u64,
    r: &'static str,
    c: ClientAddr,
)
    requires
        call_ensures(ServerState::heartbeat, (s, addr, now_ns), r),
        old(s).wf(),
    ensures
        r@ == "ok"@,
        final(s)@.clients.contains_key(c) <==> old(s)@.clients.contains_key(c),
        old(s)@.clients.contains_key(c) ==> final(s)@.clients[c] == (if c == addr {
            now_ns
        } else {
            old(s)@.clients[c]
        }),
        final(s)@ == (ServerStateView { clients: final(s)@.clients, ..old(s)@ }),
{
}

/// The stream to a client goes on exactly while less than thirty seconds have passed since the client
/// was last heard of.
pub proof fn law_silence_ends_the_stream(
    s: &ServerState,
    addr: ClientAddr,
    now_ns: u64,
    silent_for: Option<u64>,
    decision: StreamDecision,
)
    requires
        call_ensures(ServerState::silent_for, (s, addr, now_ns), silent_for),
        call_ensures(check_heartbeat, (silent_for,), decision),
        s.wf(),
        s@.clients.contains_key(addr) ==> s@.clients[addr] <= now_ns,
    ensures
        decision == StreamDecision::Continue <==> s@.clients.contains_key(addr) && now_ns
            - s@.clients[addr] < 30_000_000_000,
        decision == StreamDecision::NotRegistered <==> !s@.clients.contains_key(addr),
        silent_for matches Some(t) ==> t == now_ns - s@.clients[addr],
{
}

/// A client that waits is started when it may be, and no other is.
pub proof fn law_only_waiting_clients_are_started(
    s: &mut ServerState,
    addr: ClientAddr,
    now_ns: u64,
    mappings: Option<&Vec<ChannelMapping>>,
    r: bool,
)
    requires
        call_ensures(ServerState::start_waiting, (s, addr, now_ns, mappings), r),
        old(s).wf(),
    ensures
        r <==> old(s)@.waiting.contains(addr) && old(s)@.client_configs.contains_key(addr)
            && any_enabled(mappings) && old(s)@.clients.dom().len() < 20,
        r ==> final(s)@ == (ServerStateView {
            clients: old(s)@.clients.insert(addr, now_ns),
            waiting: old(s)@.waiting.remove(addr),
            ..old(s)@
        }),
        !r ==> final(s)@ == old(s)@,
{
    lemma_any_listed(mappings);
    if !r {
        assert(old(s)@.waiting.contains(addr) ==> old(s)@.waiting.insert(addr) =~= old(s)@.waiting);
        assert(final(s)@ =~= old(s)@);
    }
}

/// A client whose stream ended is sent nothing more and no socket serves it; all others stay as they
/// were.
pub proof fn law_ended_stream_is_gone(s: &mut ServerState, addr: ClientAddr, other: ClientAddr)
    requires
        call_ensures(ServerState::end_stream, (s, addr), ()),
        old(s).wf(),
    ensures
        !final(s)@.clients.contains_key(addr),
        !final(s)@.partners.contains_key(addr),
        other != addr ==> {
            &&& final(s)@.clients.contains_key(other) == old(s)@.clients.contains_key(other)
            &&& final(s)@.clients[other] == old(s)@.clients[other]
            &&& final(s)@.partners.contains_key(other) == old(s)@.partners.contains_key(other)
            &&& final(s)@.partners[other] == old(s)@.partners[other]
        },
        final(s)@ == (ServerStateView {
            clients: final(s)@.clients,
            partners: final(s)@.partners,
            ..old(s)@
        }),
{
}

/// Where all streams end, those are told that were sent audio, nobody is sent any more, and all else
/// stays.
pub proof fn law_all_streams_are_ended(
    s: &mut ServerState,
    r: Vec<ClientAddr>,
    addr: ClientAddr,
)
    requires
        call_ensures(ServerState::end_all_streams, (s,), r),
        old(s).wf(),
    ensures
        !final(s)@.clients.contains_key(addr),
        !final(s)@.partners.contains_key(addr),
        r@.contains(addr) <==> old(s)@.clients.contains_key(addr),
        r@.no_duplicates(),
        final(s)@ == (ServerStateView {
            clients: final(s)@.clients,
            partners: final(s)@.partners,
            ..old(s)@
        }),
{
}

/// A socket is open from when it is opened until it is closed, and serves no stream once it is closed;
/// other sockets and their streams stay as they were, and so do all streams themselves.
pub proof fn law_sockets_open_and_close(
    s: &mut ServerState,
    t: &mut ServerState,
    addr: ClientAddr,
    other: ClientAddr,
)
    requires
        call_ensures(ServerState::connect, (s, addr), ()),
        call_ensures(ServerState::disconnect, (t, addr), ()),
        old(s).wf(),
        old(t).wf(),
    ensures
        final(s)@.connections == old(s)@.connections.insert(addr),
        final(s)@ == (ServerStateView { connections: final(s)@.connections, ..old(s)@ }),
        final(t)@.connections == old(t)@.connections.remove(addr),
        final(t)@.partners.contains_key(other) <==> old(t)@.partners.contains_key(other)
            && old(t)@.partners[other] != addr,
        final(t)@.partners.contains_key(other) ==> final(t)@.partners[other]
            == old(t)@.partners[other],
        final(t)@ == (ServerStateView {
            connections: final(t)@.connections,
            partners: final(t)@.partners,
            ..old(t)@
        }),
{
}

/// Those are told of what happens whose sockets are open, each once.
pub proof fn law_open_sockets_are_the_audience(
    s: &ServerState,
    r: Vec<ClientAddr>,
    addr: ClientAddr,
)
    requires
        call_ensures(ServerState::audience, (s,), r),
        s.wf(),
    ensures
        r@.contains(addr) <==> s@.connections.contains(addr),
        r@.no_duplicates(),
{
}

/// What a client asked for is what is read for it, and changes nothing else; what could not be stored
/// is not noted.
pub proof fn law_noted_config_is_read(
    s: &mut ServerState,
    t: &mut ServerState,
    addr: ClientAddr,
    config: ClientConfig,
    saved: bool,
    answer: &'static str,
    read: &ServerState,
    found: Option<ClientConfig>,
)
    requires
        call_ensures(ServerState::remember_config, (s, addr, config), ()),
        call_ensures(ServerState::client_config, (t, addr, config, saved), answer),
        old(s).wf(),
        old(t).wf(),
        *read == *final(s),
        read.wf(),
        call_ensures(ServerState::config_of, (read, addr), found),
    ensures
        found matches Some(c) && c@ == config@,
        final(s)@ == (ServerStateView {
            client_configs: old(s)@.client_configs.insert(addr, config@),
            ..old(s)@
        }),
        saved ==> answer@ == "ok"@ && final(t)@ == (ServerStateView {
            client_configs: old(t)@.client_configs.insert(addr, config@),
            ..old(t)@
        }),
        !saved ==> answer@ == "error"@ && final(t)@ == old(t)@,
{
}

/// Each packet that was sent counts as one more, up to the greatest number there is.
pub proof fn law_sent_packets_add_up(s: &mut ServerState, read: &ServerState, r: u64)
    requires
        call_ensures(ServerState::count_packet, (s,), ()),
        old(s).wf(),
        *read == *final(s),
        call_ensures(ServerState::packets_sent, (read,), r),
    ensures
        old(s)@.packets_sent < u64::MAX ==> r == old(s)@.packets_sent + 1,
        old(s)@.packets_sent == u64::MAX ==> r == u64::MAX,
        final(s)@ == (ServerStateView { packets_sent: r, ..old(s)@ }),
{
}

/// Audio goes to the host of a client, to port 5004.
pub proof fn law_audio_goes_to_the_host(client: ClientAddr, r: ClientAddr)
    requires
        call_ensures(rtp_destination, (client,), r),
    ensures
        r.host == client.host && r.long == client.long && r.zone == client.zone,
        r.port == 5004,
{
}

/// The words that answer a request for audio.
pub proof fn law_answers_in_words(reply: AudioReply, r: &'static str)
    requires
        call_ensures(AudioReply::text, (reply,), r),
    ensures
        reply == AudioReply::Streaming ==> r@ == "streaming"@,
        reply == AudioReply::Error ==> r@ == "error"@,
        reply == AudioReply::NoChannels ==> r@ == "no_channels"@,
        reply == AudioReply::Full ==> r@ == "full"@,
        reply == AudioReply::Waiting ==> r@ == "waiting"@,
        reply == AudioReply::Started ==> r@ == "started"@,
{
}

/// What is known of a server at its start, and what can be read from it.
pub proof fn law_server_starts_empty(settings: Settings, s: ServerState, addr: ClientAddr)
    requires
        call_ensures(ServerState::new, (settings,), s),
    ensures
        s.wf(),
        !s@.clients.contains_key(addr),
        !s@.waiting.contains(addr),
        !s@.client_configs.contains_key(addr),
        !s@.connections.contains(addr),
        !s@.partners.contains_key(addr),
        s@.packets_sent == 0,
        s@.settings == settings@,
{
}

/// What is read of a server is what is known of it.
pub proof fn law_what_is_known_is_read(
    s: &ServerState,
    addr: ClientAddr,
    streaming: bool,
    waiting: bool,
    count: usize,
    settings: &Settings,
    channels: Vec<ChannelConfig>,
)
    requires
        s.wf(),
        call_ensures(ServerState::is_streaming, (s, addr), streaming),
        call_ensures(ServerState::is_waiting, (s, addr), waiting),
        call_ensures(ServerState::client_count, (s,), count),
        call_ensures(ServerState::settings, (s,), settings),
        call_ensures(ServerState::api_channels, (s,), channels),
    ensures
        streaming <==> s@.clients.contains_key(addr),
        waiting <==> s@.waiting.contains(addr),
        count == s@.clients.dom().len(),
        settings@ == s@.settings,
        views(channels@) == s@.settings.channels,
{
}

} // verus!
