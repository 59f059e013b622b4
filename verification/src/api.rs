//! What clients may ask of the server, and what it answers and announces.

use crate::clock::server_time_ms;
use crate::config::{ClientConfig, ClientConfigView, Settings};
use crate::database::{
    client_config_of, is_consistent, jitter_thresholds, lemma_with_client_differs, mapping_of,
    reordered, with_client_config, with_mapping, without_mapping, Database, DEFAULT_JITTER_DROP,
    DEFAULT_JITTER_INTERPOLATE,
};
use crate::database_laws::{
    law_client_config_reads_back, law_deleted_mapping_is_gone, law_mapping_reads_back,
    lemma_last_place, lemma_without_members,
};
use crate::rows::views;
use crate::session::{after_all_streams, ClientAddr, ServerState, ServerStateView};
use crate::tables::{
    copy_mappings, ChannelMapping, ChannelMappingView, ConfigChange, ConfigChangeView, TablesView,
};
use crate::text::{decimal, decimal_text};
use vstd::prelude::*;
use vstd::string::StringExecFns;

verus! {

/// The jitter in milliseconds from which missing audio is interpolated, and that from which
/// packets are dropped.
#[derive(Debug, Clone, Copy, PartialEq, Eq, Structural)]
pub struct JitterThresholds {
    pub interpolate: u32,
    pub drop: u32,
}

/// A message of a client over its socket.
#[derive(Debug)]
pub enum WebSocketMessage {
    Heartbeat { timestamp: String },
    ClientConfig { payload: ClientConfig },
    GetChannelMappings,
    UpdateChannelMapping { mapping: ChannelMapping },
    DeleteChannelMapping { physical_channel: u8 },
    ReorderChannelMappings { mappings: Vec<ChannelMapping> },
    /// `t1` is the client's time in milliseconds.
    NtpRequest { t1: u64 },
}

/// What `WebSocketMessage` holds.
#[verifier::ext_equal]
pub enum WebSocketMessageView {
    Heartbeat { timestamp: Seq<char> },
    ClientConfig { payload: ClientConfigView },
    GetChannelMappings,
    UpdateChannelMapping { mapping: ChannelMappingView },
    DeleteChannelMapping { physical_channel: u8 },
    ReorderChannelMappings { mappings: Seq<ChannelMappingView> },
    NtpRequest { t1: u64 },
}

impl View for WebSocketMessage {
    type V = WebSocketMessageView;

    open spec fn view(&self) -> WebSocketMessageView {
        match *self {
            WebSocketMessage::Heartbeat { timestamp } => WebSocketMessageView::Heartbeat {
                timestamp: timestamp@,
            },
            WebSocketMessage::ClientConfig { payload } => WebSocketMessageView::ClientConfig {
                payload: payload@,
            },
            WebSocketMessage::GetChannelMappings => WebSocketMessageView::GetChannelMappings,
            WebSocketMessage::UpdateChannelMapping { mapping } =>
                WebSocketMessageView::UpdateChannelMapping { mapping: mapping@ },
            WebSocketMessage::DeleteChannelMapping { physical_channel } =>
                WebSocketMessageView::DeleteChannelMapping { physical_channel },
            WebSocketMessage::ReorderChannelMappings { mappings } =>
                WebSocketMessageView::ReorderChannelMappings { mappings: views(mappings@) },
            WebSocketMessage::NtpRequest { t1 } => WebSocketMessageView::NtpRequest { t1 },
        }
    }
}

/// A notice to a client.
#[derive(Debug)]
pub enum EventPayload {
    ConfigChanged { reason: String, new_sample_rate: Option<u32> },
    Reconnect,
    ServerShutdown,
    NetworkWarning { message: String },
    TimeSync { server_time_ms: u64 },
}

/// What `EventPayload` holds.
#[verifier::ext_equal]
pub enum EventPayloadView {
    ConfigChanged { reason: Seq<char>, new_sample_rate: Option<u32> },
    Reconnect,
    ServerShutdown,
    NetworkWarning { message: Seq<char> },
    TimeSync { server_time_ms: u64 },
}

impl View for EventPayload {
    type V = EventPayloadView;

    open spec fn view(&self) -> EventPayloadView {
        match *self {
            EventPayload::ConfigChanged { reason, new_sample_rate } =>
                EventPayloadView::ConfigChanged { reason: reason@, new_sample_rate },
            EventPayload::Reconnect => EventPayloadView::Reconnect,
            EventPayload::ServerShutdown => EventPayloadView::ServerShutdown,
            EventPayload::NetworkWarning { message } => EventPayloadView::NetworkWarning {
                message: message@,
            },
            EventPayload::TimeSync { server_time_ms } => EventPayloadView::TimeSync {
                server_time_ms,
            },
        }
    }
}

/// What the server says to a client over its socket.
#[derive(Debug)]
pub enum WebSocketEvent {
    Event { payload: EventPayload },
    ChannelMappings { mappings: Vec<ChannelMapping> },
    ChannelMappingUpdated { mapping: ChannelMapping },
    ChannelMappingDeleted { physical_channel: u8 },
    /// `t1` is the client's time of its request, `t2` the server's when the request came and `t3`
    /// the server's when the answer goes.
    NtpResponse { t1: u64, t2: u64, t3: u64 },
}

/// What `WebSocketEvent` holds.
#[verifier::ext_equal]
pub enum WebSocketEventView {
    Event { payload: EventPayloadView },
    ChannelMappings { mappings: Seq<ChannelMappingView> },
    ChannelMappingUpdated { mapping: ChannelMappingView },
    ChannelMappingDeleted { physical_channel: u8 },
    NtpResponse { t1: u64, t2: u64, t3: u64 },
}

impl View for WebSocketEvent {
    type V = WebSocketEventView;

    open spec fn view(&self) -> WebSocketEventView {
        match *self {
            WebSocketEvent::Event { payload } => WebSocketEventView::Event { payload: payload@ },
            WebSocketEvent::ChannelMappings { mappings } => WebSocketEventView::ChannelMappings {
                mappings: views(mappings@),
            },
            WebSocketEvent::ChannelMappingUpdated { mapping } =>
                WebSocketEventView::ChannelMappingUpdated { mapping: mapping@ },
            WebSocketEvent::ChannelMappingDeleted { physical_channel } =>
                WebSocketEventView::ChannelMappingDeleted { physical_channel },
            WebSocketEvent::NtpResponse { t1, t2, t3 } => WebSocketEventView::NtpResponse {
                t1,
                t2,
                t3,
            },
        }
    }
}

/// A change of the channel mappings. Only the web interface asks for one, by REST.
#[derive(Debug)]
pub enum MappingChange {
    Create { mapping: ChannelMapping },
    Update { mapping: ChannelMapping },
    Delete { physical_channel: u8 },
    Reorder { mappings: Vec<ChannelMapping> },
}

/// What `MappingChange` holds.
#[verifier::ext_equal]
pub enum MappingChangeView {
    Create { mapping: ChannelMappingView },
    Update { mapping: ChannelMappingView },
    Delete { physical_channel: u8 },
    Reorder { mappings: Seq<ChannelMappingView> },
}

impl View for MappingChange {
    type V = MappingChangeView;

    open spec fn view(&self) -> MappingChangeView {
        match *self {
            MappingChange::Create { mapping } => MappingChangeView::Create { mapping: mapping@ },
            MappingChange::Update { mapping } => MappingChangeView::Update { mapping: mapping@ },
            MappingChange::Delete { physical_channel } => MappingChangeView::Delete {
                physical_channel,
            },
            MappingChange::Reorder { mappings } => MappingChangeView::Reorder {
                mappings: views(mappings@),
            },
        }
    }
}

/// Whether a change can be carried out: an order has 255 places.
pub open spec fn is_feasible(change: MappingChangeView) -> bool {
    change matches MappingChangeView::Reorder { mappings } ==> mappings.len() <= 255
}

/// The stored rows after a change.
pub open spec fn changed(t: TablesView, change: MappingChangeView) -> TablesView {
    TablesView {
        mappings: match change {
            MappingChangeView::Create { mapping } => with_mapping(t.mappings, mapping),
            MappingChangeView::Update { mapping } => with_mapping(t.mappings, mapping),
            MappingChangeView::Delete { physical_channel } => without_mapping(
                t.mappings,
                physical_channel,
            ),
            MappingChangeView::Reorder { mappings } => reordered(t.mappings, mappings),
        },
        ..t
    }
}

/// The note that a change leaves behind.
pub open spec fn change_note(change: MappingChangeView) -> ConfigChangeView {
    ConfigChangeView {
        change_type: match change {
            MappingChangeView::Create { .. } => "channel_mapping_create"@,
            MappingChangeView::Update { .. } => "channel_mapping_update"@,
            MappingChangeView::Delete { .. } => "channel_mapping_delete"@,
            MappingChangeView::Reorder { .. } => "channel_mapping_reorder"@,
        },
        reason: "rest_api"@,
        details: match change {
            MappingChangeView::Create { mapping } => "Created mapping for physical channel "@
                + decimal(mapping.physical_channel as nat),
            MappingChangeView::Update { mapping } => "Updated mapping for physical channel "@
                + decimal(mapping.physical_channel as nat),
            MappingChangeView::Delete { physical_channel } =>
                "Deleted mapping for physical channel "@ + decimal(physical_channel as nat),
            MappingChangeView::Reorder { mappings } => "Reordered "@ + decimal(mappings.len())
                + " channel mappings"@,
        },
    }
}

/// What all clients are told of a change.
pub open spec fn change_event(change: MappingChangeView) -> WebSocketEventView {
    match change {
        MappingChangeView::Create { mapping } => WebSocketEventView::ChannelMappingUpdated {
            mapping,
        },
        MappingChangeView::Update { mapping } => WebSocketEventView::ChannelMappingUpdated {
            mapping,
        },
        MappingChangeView::Delete { physical_channel } =>
            WebSocketEventView::ChannelMappingDeleted { physical_channel },
        MappingChangeView::Reorder { mappings } => WebSocketEventView::ChannelMappings { mappings },
    }
}

/// The answer to a request by REST.
#[derive(Debug)]
pub enum RestReply {
    Created { mapping: ChannelMapping },
    Updated { mapping: ChannelMapping },
    Deleted { physical_channel: u8 },
    Reordered { count: usize },
    Done,
    Error { message: String },
}

/// What `RestReply` holds.
#[verifier::ext_equal]
pub enum RestReplyView {
    Created { mapping: ChannelMappingView },
    Updated { mapping: ChannelMappingView },
    Deleted { physical_channel: u8 },
    Reordered { count: nat },
    Done,
    Error { message: Seq<char> },
}

impl View for RestReply {
    type V = RestReplyView;

    open spec fn view(&self) -> RestReplyView {
        match *self {
            RestReply::Created { mapping } => RestReplyView::Created { mapping: mapping@ },
            RestReply::Updated { mapping } => RestReplyView::Updated { mapping: mapping@ },
            RestReply::Deleted { physical_channel } => RestReplyView::Deleted { physical_channel },
            RestReply::Reordered { count } => RestReplyView::Reordered { count: count as nat },
            RestReply::Done => RestReplyView::Done,
            RestReply::Error { message } => RestReplyView::Error { message: message@ },
        }
    }
}

/// The answer to a change that was carried out.
pub open spec fn change_reply(change: MappingChangeView) -> RestReplyView {
    match change {
        MappingChangeView::Create { mapping } => RestReplyView::Created { mapping },
        MappingChangeView::Update { mapping } => RestReplyView::Updated { mapping },
        MappingChangeView::Delete { physical_channel } => RestReplyView::Deleted {
            physical_channel,
        },
        MappingChangeView::Reorder { mappings } => RestReplyView::Reordered {
            count: mappings.len(),
        },
    }
}

impl RestReply {
    /// The word that the answer gives as its status.
    pub open spec fn spec_status(self) -> Seq<char> {
        match self {
            RestReply::Created { .. } => "created"@,
            RestReply::Updated { .. } => "updated"@,
            RestReply::Deleted { .. } => "deleted"@,
            RestReply::Reordered { .. } => "reordered"@,
            RestReply::Done => "ok"@,
            RestReply::Error { .. } => "error"@,
        }
    }

    /// The word that the answer gives as its status.
    pub fn status(&self) -> (r: &'static str)
        ensures
            r@ == self.spec_status(),
    {
        match self {
            RestReply::Created { .. } => "created",
            RestReply::Updated { .. } => "updated",
            RestReply::Deleted { .. } => "deleted",
            RestReply::Reordered { .. } => "reordered",
            RestReply::Done => "ok",
            RestReply::Error { .. } => "error",
        }
    }
}

/// What follows from a change, once it was tried.
#[derive(Debug)]
pub struct ChangeEffects {
    /// What is noted.
    pub note: Option<ConfigChange>,
    /// What all clients are told.
    pub announcement: Option<WebSocketEvent>,
    /// Whether the streams to all clients end, since they were made for the old settings.
    pub ends_streams: bool,
    /// What is answered.
    pub reply: RestReply,
}

impl MappingChange {
    /// Whether the change can be carried out.
    pub fn feasible(&self) -> (r: bool)
        ensures
            r == is_feasible(self@),
    {
        match self {
            MappingChange::Reorder { mappings } => mappings.len() <= 255,
            _ => true,
        }
    }

    /// Carries the change out on the stored rows.
    pub fn apply(&self, database: &mut Database)
        requires
            old(database).wf(),
            is_feasible(self@),
        ensures
            final(database).wf(),
            final(database)@ == changed(old(database)@, self@),
    {
        match self {
            MappingChange::Create { mapping } => database.update_channel_mapping(mapping),
            MappingChange::Update { mapping } => database.update_channel_mapping(mapping),
            MappingChange::Delete { physical_channel } => database.delete_channel_mapping(
                *physical_channel,
            ),
            MappingChange::Reorder { mappings } => database.reorder_channel_mappings(mappings),
        }
    }

    /// The note that the change leaves behind.
    fn note(&self) -> (r: ConfigChange)
        ensures
            r@ == change_note(self@),
    {
        let change_type = match self {
            MappingChange::Create { .. } => "channel_mapping_create",
            MappingChange::Update { .. } => "channel_mapping_update",
            MappingChange::Delete { .. } => "channel_mapping_delete",
            MappingChange::Reorder { .. } => "channel_mapping_reorder",
        };
        let details = match self {
            MappingChange::Create { mapping } => sentence(
                "Created mapping for physical channel ",
                mapping.physical_channel as u64,
            ),
            MappingChange::Update { mapping } => sentence(
                "Updated mapping for physical channel ",
                mapping.physical_channel as u64,
            ),
            MappingChange::Delete { physical_channel } => sentence(
                "Deleted mapping for physical channel ",
                *physical_channel as u64,
            ),
            MappingChange::Reorder { mappings } => {
                let mut s = sentence("Reordered ", mappings.len() as u64);
                s.append(" channel mappings");
                s
            },
        };
        ConfigChange { change_type: change_type.to_owned(), reason: "rest_api".to_owned(), details }
    }

    /// What all clients are told of the change.
    fn event(&self) -> (r: WebSocketEvent)
        ensures
            r@ == change_event(self@),
    {
        match self {
            MappingChange::Create { mapping } => WebSocketEvent::ChannelMappingUpdated {
                mapping: mapping.clone(),
            },
            MappingChange::Update { mapping } => WebSocketEvent::ChannelMappingUpdated {
                mapping: mapping.clone(),
            },
            MappingChange::Delete { physical_channel } => WebSocketEvent::ChannelMappingDeleted {
                physical_channel: *physical_channel,
            },
            MappingChange::Reorder { mappings } => WebSocketEvent::ChannelMappings {
                mappings: copy_mappings(mappings),
            },
        }
    }

    /// What follows from the change, given whether it could be stored, and if not, why. A change
    /// that was stored is noted, ends all streams and is announced to all clients; one that was
    /// not is neither noted nor announced, and ends nothing.
    pub fn effects(self, stored: Result<(), String>) -> (r: ChangeEffects)
        ensures
            match stored {
                Ok(_) => {
                    &&& r.note matches Some(n) && n@ == change_note(self@)
                    &&& r.announcement matches Some(e) && e@ == change_event(self@)
                    &&& r.ends_streams
                    &&& r.reply@ == change_reply(self@)
                },
                Err(message) => {
                    &&& r.note is None
                    &&& r.announcement is None
                    &&& !r.ends_streams
                    &&& r.reply@ == (RestReplyView::Error { message: message@ })
                },
            },
    {
        match stored {
            Ok(_) => {
                let note = self.note();
                let event = self.event();
                let reply = match self {
                    MappingChange::Create { mapping } => RestReply::Created { mapping },
                    MappingChange::Update { mapping } => RestReply::Updated { mapping },
                    MappingChange::Delete { physical_channel } => RestReply::Deleted {
                        physical_channel,
                    },
                    MappingChange::Reorder { mappings } => RestReply::Reordered {
                        count: mappings.len(),
                    },
                };
                ChangeEffects {
                    note: Some(note),
                    announcement: Some(event),
                    ends_streams: true,
                    reply,
                }
            },
            Err(message) => ChangeEffects {
                note: None,
                announcement: None,
                ends_streams: false,
                reply: RestReply::Error { message },
            },
        }
    }
}

/// Ends the streams to all clients where a change asks for it, and tells which they were.
pub fn end_streams(effects: &ChangeEffects, state: &mut ServerState) -> (r: Vec<ClientAddr>)
    requires
        old(state).wf(),
    ensures
        final(state).wf(),
        final(state)@ == if effects.ends_streams {
            after_all_streams(old(state)@)
        } else {
            old(state)@
        },
        r@.no_duplicates(),
        forall|addr: ClientAddr| #[trigger]
            r@.contains(addr) <==> effects.ends_streams && old(state)@.clients.contains_key(addr),
{
    if effects.ends_streams {
        state.end_all_streams()
    } else {
        Vec::new()
    }
}

/// A text that ends in a number.
fn sentence(start: &str, n: u64) -> (r: String)
    ensures
        r@ == start@ + decimal(n as nat),
{
    let mut s = start.to_owned();
    s.append(decimal_text(n).as_str());
    s
}

/// What the server does about a message.
#[derive(Debug)]
pub enum MessageAction {
    /// Notes that the client was heard of.
    NoteHeartbeat,
    /// Stores and notes what the client asks for.
    KeepConfig { config: ClientConfig },
    /// Tells the client the mappings.
    SendMappings,
    /// Refuses to change a setting.
    Refuse,
    /// Tells the client the time.
    AnswerTime { t1: u64 },
}

/// What `MessageAction` holds.
#[verifier::ext_equal]
pub enum MessageActionView {
    NoteHeartbeat,
    KeepConfig { config: ClientConfigView },
    SendMappings,
    Refuse,
    AnswerTime { t1: u64 },
}

impl View for MessageAction {
    type V = MessageActionView;

    open spec fn view(&self) -> MessageActionView {
        match *self {
            MessageAction::NoteHeartbeat => MessageActionView::NoteHeartbeat,
            MessageAction::KeepConfig { config } => MessageActionView::KeepConfig {
                config: config@,
            },
            MessageAction::SendMappings => MessageActionView::SendMappings,
            MessageAction::Refuse => MessageActionView::Refuse,
            MessageAction::AnswerTime { t1 } => MessageActionView::AnswerTime { t1 },
        }
    }
}

/// What the server does about a message. Clients cannot change settings.
pub open spec fn action_for(message: WebSocketMessageView) -> MessageActionView {
    match message {
        WebSocketMessageView::Heartbeat { .. } => MessageActionView::NoteHeartbeat,
        WebSocketMessageView::ClientConfig { payload } => MessageActionView::KeepConfig {
            config: payload,
        },
        WebSocketMessageView::GetChannelMappings => MessageActionView::SendMappings,
        WebSocketMessageView::UpdateChannelMapping { .. } => MessageActionView::Refuse,
        WebSocketMessageView::DeleteChannelMapping { .. } => MessageActionView::Refuse,
        WebSocketMessageView::ReorderChannelMappings { .. } => MessageActionView::Refuse,
        WebSocketMessageView::NtpRequest { t1 } => MessageActionView::AnswerTime { t1 },
    }
}

/// The stored rows after an action for a client.
pub open spec fn after_action(
    t: TablesView,
    action: MessageActionView,
    ip: Seq<char>,
    port: u16,
) -> TablesView {
    match action {
        MessageActionView::KeepConfig { config } => TablesView {
            clients: with_client_config(t.clients, ip, port, config),
            ..t
        },
        _ => t,
    }
}

/// The stored rows after the messages of a client.
pub open spec fn after_messages(
    t: TablesView,
    messages: Seq<WebSocketMessageView>,
    ip: Seq<char>,
    port: u16,
) -> TablesView
    decreases messages.len(),
{
    if messages.len() == 0 {
        t
    } else {
        after_action(
            after_messages(t, messages.drop_last(), ip, port),
            action_for(messages.last()),
            ip,
            port,
        )
    }
}

impl WebSocketMessage {
    /// What the server does about the message.
    pub fn action(self) -> (r: MessageAction)
        ensures
            r@ == action_for(self@),
    {
        match self {
            WebSocketMessage::Heartbeat { .. } => MessageAction::NoteHeartbeat,
            WebSocketMessage::ClientConfig { payload } => MessageAction::KeepConfig {
                config: payload,
            },
            WebSocketMessage::GetChannelMappings => MessageAction::SendMappings,
            WebSocketMessage::UpdateChannelMapping { .. } => MessageAction::Refuse,
            WebSocketMessage::DeleteChannelMapping { .. } => MessageAction::Refuse,
            WebSocketMessage::ReorderChannelMappings { .. } => MessageAction::Refuse,
            WebSocketMessage::NtpRequest { t1 } => MessageAction::AnswerTime { t1 },
        }
    }
}

impl MessageAction {
    /// Stores what the action has to store for a client: what the client asks for, and nothing
    /// else.
    pub fn store(&self, database: &mut Database, client_ip: &str, client_port: u16)
        requires
            old(database).wf(),
        ensures
            final(database).wf(),
            final(database)@ == after_action(old(database)@, self@, client_ip@, client_port),
    {
        match self {
            MessageAction::KeepConfig { config } => {
                database.save_client_config(client_ip, client_port, config)
            },
            _ => {},
        }
    }
}

/// What a client that asked for the mappings is told: nothing where they could not be read.
pub fn mappings_event(stored: Option<Vec<ChannelMapping>>) -> (r: Option<WebSocketEvent>)
    ensures
        match stored {
            Some(mappings) => r matches Some(e) && e@ == (WebSocketEventView::ChannelMappings {
                mappings: views(mappings@),
            }),
            None => r is None,
        },
{
    match stored {
        Some(mappings) => Some(WebSocketEvent::ChannelMappings { mappings }),
        None => None,
    }
}

/// The answer to a request for the time that came at `t2` and is answered at `t3`.
pub fn ntp_response(t1: u64, t2: u64, t3: u64) -> (r: WebSocketEvent)
    ensures
        r@ == (WebSocketEventView::NtpResponse { t1, t2, t3 }),
{
    WebSocketEvent::NtpResponse { t1, t2, t3 }
}

/// The answer to a request for the time that came at `t2`, made now. What the clock shows now is not
/// known beforehand.
pub fn answer_time(t1: u64, t2: u64) -> (r: WebSocketEvent)
    ensures
        exists|t3: u64| #[trigger]
            call_ensures(server_time_ms, (), t3) && r@ == (WebSocketEventView::NtpResponse {
                t1,
                t2,
                t3,
            }),
{
    let t3: u64 = server_time_ms();
    ntp_response(t1, t2, t3)
}

/// The notice that tells a client the time `server_time_ms`.
pub fn time_sync_event_at(server_time_ms: u64) -> (r: WebSocketEvent)
    ensures
        r@ == (WebSocketEventView::Event {
            payload: EventPayloadView::TimeSync { server_time_ms },
        }),
{
    WebSocketEvent::Event { payload: EventPayload::TimeSync { server_time_ms } }
}

/// The notice that tells a client the present time. What the clock shows is not known beforehand.
pub fn time_sync_event() -> (r: WebSocketEvent)
    ensures
        exists|t: u64|
            #[trigger] call_ensures(server_time_ms, (), t) && r@ == (WebSocketEventView::Event {
                payload: EventPayloadView::TimeSync { server_time_ms: t },
            }),
{
    time_sync_event_at(server_time_ms())
}

/// The state of the server as clients are told it.
#[derive(Debug)]
pub struct StatusResponse {
    pub status: &'static str,
    pub compression: String,
    pub sample_rate: u32,
    pub channels: usize,
    pub channel_mappings: Vec<ChannelMapping>,
    pub jitter_thresholds: JitterThresholds,
}

/// The state of the server, given the mappings and the thresholds where they could be read. No
/// mappings stand for those that could not, and the default thresholds.
pub fn api_status(
    settings: &Settings,
    mappings: Option<Vec<ChannelMapping>>,
    thresholds: Option<(u32, u32)>,
) -> (r: StatusResponse)
    ensures
        r.status@ == "running"@,
        r.compression@ == settings@.compression,
        r.sample_rate == settings@.sample_rate,
        r.channels == settings@.channels.len(),
        views(r.channel_mappings@) == match mappings {
            Some(list) => views(list@),
            None => Seq::empty(),
        },
        r.jitter_thresholds == known_thresholds(thresholds),
{
    StatusResponse {
        status: "running",
        compression: settings.compression.clone(),
        sample_rate: settings.sample_rate,
        channels: settings.channels.len(),
        channel_mappings: api_channel_mappings(mappings),
        jitter_thresholds: api_get_jitter_thresholds(thresholds),
    }
}

/// The mappings as clients are told them: none where they could not be read.
pub fn api_channel_mappings(stored: Option<Vec<ChannelMapping>>) -> (r: Vec<ChannelMapping>)
    ensures
        views(r@) == match stored {
            Some(list) => views(list@),
            None => Seq::empty(),
        },
{
    match stored {
        Some(list) => list,
        None => {
            let none: Vec<ChannelMapping> = Vec::new();
            assert(views(none@) =~= Seq::empty());
            none
        },
    }
}

/// The change that creates a mapping.
pub fn api_create_channel_mapping(mapping: ChannelMapping) -> (r: MappingChange)
    ensures
        r@ == (MappingChangeView::Create { mapping: mapping@ }),
{
    MappingChange::Create { mapping }
}

/// The change that a client asks for at the address of a physical channel, or the refusal where
/// the mapping that it sends is for another channel.
pub fn api_update_channel_mapping(physical_channel: u8, mapping: ChannelMapping) -> (r: Result<
    MappingChange,
    RestReply,
>)
    ensures
        match r {
            Ok(change) => mapping.physical_channel == physical_channel && change@ == (
            MappingChangeView::Update { mapping: mapping@ }),
            Err(reply) => mapping.physical_channel != physical_channel && reply@ == (
            RestReplyView::Error { message: "Physical channel mismatch"@ }),
        },
{
    if mapping.physical_channel != physical_channel {
        return Err(RestReply::Error { message: "Physical channel mismatch".to_owned() });
    }
    Ok(MappingChange::Update { mapping })
}

/// The change that takes a mapping away.
pub fn api_delete_channel_mapping(physical_channel: u8) -> (r: MappingChange)
    ensures
        r@ == (MappingChangeView::Delete { physical_channel }),
{
    MappingChange::Delete { physical_channel }
}

/// The change that puts the mappings in another order.
pub fn api_reorder_channel_mappings(mappings: Vec<ChannelMapping>) -> (r: MappingChange)
    ensures
        r@ == (MappingChangeView::Reorder { mappings: views(mappings@) }),
{
    MappingChange::Reorder { mappings }
}

/// The thresholds that were read, or else the default ones.
pub open spec fn known_thresholds(stored: Option<(u32, u32)>) -> JitterThresholds {
    match stored {
        Some(t) => JitterThresholds { interpolate: t.0, drop: t.1 },
        None => JitterThresholds {
            interpolate: DEFAULT_JITTER_INTERPOLATE,
            drop: DEFAULT_JITTER_DROP,
        },
    }
}

/// The jitter thresholds as clients are told them.
pub fn api_get_jitter_thresholds(stored: Option<(u32, u32)>) -> (r: JitterThresholds)
    ensures
        r == known_thresholds(stored),
{
    match stored {
        Some(t) => JitterThresholds { interpolate: t.0, drop: t.1 },
        None => JitterThresholds {
            interpolate: DEFAULT_JITTER_INTERPOLATE,
            drop: DEFAULT_JITTER_DROP,
        },
    }
}

/// The answer to a client that sets the jitter thresholds, given whether they could be stored.
pub fn api_set_jitter_thresholds(stored: Result<(), String>) -> (r: RestReply)
    ensures
        r@ == match stored {
            Ok(_) => RestReplyView::Done,
            Err(message) => RestReplyView::Error { message: message@ },
        },
{
    match stored {
        Ok(_) => RestReply::Done,
        Err(message) => RestReply::Error { message },
    }
}

/// The answer to a client that tells what it measured.
#[derive(Debug)]
pub struct QosReply {
    pub status: &'static str,
    pub client: String,
    pub timestamp: String,
    pub total_clients: usize,
    pub total_packets_sent: u64,
    /// The share of the processor's time that is in use, as the bits of a floating-point number.
    pub server_cpu_usage: u64,
    /// The memory in use in megabytes, as the bits of a floating-point number.
    pub server_memory_usage: u64,
}

/// The answer to a client that tells what it measured, whether that could be stored or not. The
/// two measures of the server itself are the bits of floating-point numbers.
pub fn qos_metrics(
    state: &ServerState,
    client: String,
    timestamp: String,
    server_cpu_usage: u64,
    server_memory_usage: u64,
) -> (r: QosReply)
    requires
        state.wf(),
    ensures
        r.status@ == "ok"@,
        r.client@ == client@,
        r.timestamp@ == timestamp@,
        r.total_clients == state@.clients.dom().len(),
        r.total_packets_sent == state@.packets_sent,
        r.server_cpu_usage == server_cpu_usage,
        r.server_memory_usage == server_memory_usage,
{
    QosReply {
        status: "ok",
        client,
        timestamp,
        total_clients: state.client_count(),
        total_packets_sent: state.packets_sent(),
        server_cpu_usage,
        server_memory_usage,
    }
}

/// No messages of a client change the audio settings, the channels or the mappings, nor what other
/// clients asked for.
pub proof fn law_messages_change_no_settings(
    t: TablesView,
    messages: Seq<WebSocketMessageView>,
    ip: Seq<char>,
    port: u16,
    other_ip: Seq<char>,
    other_port: u16,
)
    requires
        is_consistent(t),
    ensures
        ({
            let after = after_messages(t, messages, ip, port);
            &&& is_consistent(after)
            &&& after == (TablesView { clients: after.clients, ..t })
            &&& (other_ip != ip || other_port != port) ==> client_config_of(
                after.clients,
                other_ip,
                other_port,
            ) == client_config_of(t.clients, other_ip, other_port)
        }),
    decreases messages.len(),
{
    if messages.len() > 0 {
        law_messages_change_no_settings(
            t,
            messages.drop_last(),
            ip,
            port,
            other_ip,
            other_port,
        );
        let before = after_messages(t, messages.drop_last(), ip, port);
        match action_for(messages.last()) {
            MessageActionView::KeepConfig { config } => {
                lemma_with_client_differs(before.clients, ip, port, config);
                law_client_config_reads_back(
                    before.clients,
                    ip,
                    port,
                    config,
                    other_ip,
                    other_port,
                );
            },
            _ => {},
        }
    }
}

/// A mapping that clients are told of as updated is the one that is stored.
pub proof fn law_updates_are_announced(t: TablesView, change: MappingChangeView)
    requires
        is_consistent(t),
    ensures
        change_event(change) matches WebSocketEventView::ChannelMappingUpdated { mapping }
            ==> mapping_of(changed(t, change).mappings, mapping.physical_channel) == Some(mapping),
{
    match change {
        MappingChangeView::Create { mapping } => {
            law_mapping_reads_back(t.mappings, mapping, mapping.physical_channel);
        },
        MappingChangeView::Update { mapping } => {
            law_mapping_reads_back(t.mappings, mapping, mapping.physical_channel);
        },
        _ => {},
    }
}

/// A channel whose mapping clients are told of as deleted has none.
pub proof fn law_deletions_are_announced(t: TablesView, change: MappingChangeView)
    requires
        is_consistent(t),
    ensures
        change_event(change) matches WebSocketEventView::ChannelMappingDeleted { physical_channel }
            ==> mapping_of(changed(t, change).mappings, physical_channel) is None,
{
    match change {
        MappingChangeView::Delete { physical_channel } => {
            law_deleted_mapping_is_gone(t.mappings, physical_channel, physical_channel);
        },
        _ => {},
    }
}

/// A change of the mappings leaves all other settings as they were.
pub proof fn law_changes_touch_mappings_only(t: TablesView, change: MappingChangeView)
    ensures
        changed(t, change) == (TablesView { mappings: changed(t, change).mappings, ..t }),
        jitter_thresholds(changed(t, change).audio) == jitter_thresholds(t.audio),
{
}

/// Whether a list names a channel at place `i`, and nowhere behind it.
pub open spec fn names_last_at(list: Seq<ChannelMapping>, physical_channel: u8, i: int) -> bool {
    &&& 0 <= i < list.len()
    &&& list[i].physical_channel == physical_channel
    &&& forall|j: int|
        i < j < list.len() ==> (#[trigger] list[j]).physical_channel != physical_channel
}

/// Whether a list names a channel.
pub open spec fn names(list: Seq<ChannelMapping>, physical_channel: u8) -> bool {
    exists|j: int|
        0 <= j < list.len() && (#[trigger] list[j]).physical_channel == physical_channel
}

/// After a reordering each mapping has the place at which the list names its channel, the last one if
/// it does so more than once, counted from 1. A mapping whose channel the list does not name is as
/// before, nothing but the place of any mapping changes, and nothing else that is stored does.
pub proof fn law_stored_order_is_that_of_the_list(
    change: &MappingChange,
    database: &mut Database,
    list: Vec<ChannelMapping>,
    k: int,
    i: int,
)
    requires
        *change == (MappingChange::Reorder { mappings: list }),
        list@.len() <= 255,
        old(database).wf(),
        call_ensures(MappingChange::apply, (change, database), ()),
        0 <= k < old(database)@.mappings.len(),
    ensures
        final(database)@.mappings.len() == old(database)@.mappings.len(),
        ({
            let m = old(database)@.mappings[k];
            let n = final(database)@.mappings[k];
            &&& names_last_at(list@, m.physical_channel, i) ==> n.order_index == i + 1
            &&& !names(list@, m.physical_channel) ==> n.order_index == m.order_index
            &&& n.physical_channel == m.physical_channel
            &&& n.logical_channel == m.logical_channel
            &&& n.name == m.name
            &&& n.enabled == m.enabled
        }),
        final(database)@ == (TablesView {
            mappings: final(database)@.mappings,
            ..old(database)@
        }),
{
    let m = old(database)@.mappings[k];
    let v = views(list@);
    lemma_last_place(v, m.physical_channel, m.order_index, i);
    assert forall|j: int| 0 <= j < v.len() implies #[trigger] v[j] == list@[j]@ by {}
    if names_last_at(list@, m.physical_channel, i) {
        assert forall|j: int| i < j < v.len() implies (#[trigger] v[j]).physical_channel
            != m.physical_channel by {
            assert(list@[j].physical_channel != m.physical_channel);
        }
    }
    if !names(list@, m.physical_channel) {
        assert forall|j: int| 0 <= j < v.len() implies (#[trigger] v[j]).physical_channel
            != m.physical_channel by {
            assert(list@[j].physical_channel != m.physical_channel);
        }
    }
}

/// A mapping that is created or updated is stored as it was sent, as the only one of its channel. The
/// mappings of other channels stay, and so does all else that is stored.
pub proof fn law_sent_mapping_is_stored(
    change: &MappingChange,
    database: &mut Database,
    mapping: ChannelMapping,
    x: ChannelMappingView,
)
    requires
        *change == (MappingChange::Create { mapping }) || *change == (MappingChange::Update {
            mapping,
        }),
        old(database).wf(),
        call_ensures(MappingChange::apply, (change, database), ()),
    ensures
        final(database)@.mappings.contains(mapping@),
        x.physical_channel == mapping.physical_channel ==> (final(database)@.mappings.contains(x) <==> x == mapping@),
        x.physical_channel != mapping.physical_channel ==> (final(database)@.mappings.contains(x) <==> old(database)@.mappings.contains(x)),
        final(database)@ == (TablesView {
            mappings: final(database)@.mappings,
            ..old(database)@
        }),
{
    let before = old(database)@.mappings;
    let after = final(database)@.mappings;
    let kept = without_mapping(before, mapping.physical_channel);
    assert(after == kept.push(mapping@));
    assert(after[after.len() - 1] == mapping@);
    lemma_without_members(before, mapping.physical_channel, x);
    if after.contains(x) {
        let i = after.index_of(x);
        if i < kept.len() {
            assert(kept[i] == x);
        }
    }
    if kept.contains(x) {
        let i = kept.index_of(x);
        assert(after[i] == x);
    }
}

/// A mapping that is deleted is no longer stored. The mappings of other channels stay, and so does all
/// else that is stored.
pub proof fn law_deleted_mapping_is_not_stored(
    change: &MappingChange,
    database: &mut Database,
    physical_channel: u8,
    x: ChannelMappingView,
)
    requires
        *change == (MappingChange::Delete { physical_channel }),
        old(database).wf(),
        call_ensures(MappingChange::apply, (change, database), ()),
    ensures
        final(database)@.mappings.contains(x) <==> old(database)@.mappings.contains(x)
            && x.physical_channel != physical_channel,
        final(database)@ == (TablesView {
            mappings: final(database)@.mappings,
            ..old(database)@
        }),
{
    lemma_without_members(old(database)@.mappings, physical_channel, x);
}

/// A change can be carried out exactly if it is no reordering of more than 255 mappings.
pub proof fn law_orders_have_255_places(change: &MappingChange, r: bool)
    requires
        call_ensures(MappingChange::feasible, (change,), r),
    ensures
        !r <==> (change matches MappingChange::Reorder { mappings } && mappings@.len() > 255),
{
}

/// A change that could not be stored is answered with the reason, and nothing else comes of it.
pub proof fn law_failed_change_has_no_effect(
    change: MappingChange,
    message: String,
    r: ChangeEffects,
)
    requires
        call_ensures(MappingChange::effects, (change, Err::<(), String>(message)), r),
    ensures
        r.note is None,
        r.announcement is None,
        !r.ends_streams,
        r.reply matches RestReply::Error { message: m } && m@ == message@,
{
}

/// A mapping that was created is noted, announced and answered as it was sent, and all streams end.
pub proof fn law_created_mapping_is_announced(mapping: ChannelMapping, r: ChangeEffects)
    requires
        call_ensures(
            MappingChange::effects,
            (MappingChange::Create { mapping }, Ok::<(), String>(())),
            r,
        ),
    ensures
        r.note matches Some(n) && n.change_type@ == "channel_mapping_create"@ && n.reason@
            == "rest_api"@ && n.details@ == "Created mapping for physical channel "@ + decimal(
            mapping.physical_channel as nat,
        ),
        r.announcement matches Some(WebSocketEvent::ChannelMappingUpdated { mapping: m }) && m@
            == mapping@,
        r.ends_streams,
        r.reply matches RestReply::Created { mapping: m } && m@ == mapping@,
{
}

/// A mapping that was updated is noted, announced and answered as it was sent, and all streams end.
pub proof fn law_updated_mapping_is_announced(mapping: ChannelMapping, r: ChangeEffects)
    requires
        call_ensures(
            MappingChange::effects,
            (MappingChange::Update { mapping }, Ok::<(), String>(())),
            r,
        ),
    ensures
        r.note matches Some(n) && n.change_type@ == "channel_mapping_update"@ && n.reason@
            == "rest_api"@ && n.details@ == "Updated mapping for physical channel "@ + decimal(
            mapping.physical_channel as nat,
        ),
        r.announcement matches Some(WebSocketEvent::ChannelMappingUpdated { mapping: m }) && m@
            == mapping@,
        r.ends_streams,
        r.reply matches RestReply::Updated { mapping: m } && m@ == mapping@,
{
}

/// A channel whose mapping was deleted is noted, announced and answered, and all streams end.
pub proof fn law_deleted_mapping_is_announced(physical_channel: u8, r: ChangeEffects)
    requires
        call_ensures(
            MappingChange::effects,
            (MappingChange::Delete { physical_channel }, Ok::<(), String>(())),
            r,
        ),
    ensures
        r.note matches Some(n) && n.change_type@ == "channel_mapping_delete"@ && n.reason@
            == "rest_api"@ && n.details@ == "Deleted mapping for physical channel "@ + decimal(
            physical_channel as nat,
        ),
        r.announcement matches Some(WebSocketEvent::ChannelMappingDeleted { physical_channel: p })
            && p == physical_channel,
        r.ends_streams,
        r.reply matches RestReply::Deleted { physical_channel: p } && p == physical_channel,
{
}

/// A new order is noted with the number of mappings in the list, announced with the whole list and
/// answered with their number, and all streams end.
pub proof fn law_new_order_is_announced(mappings: Vec<ChannelMapping>, r: ChangeEffects)
    requires
        call_ensures(
            MappingChange::effects,
            (MappingChange::Reorder { mappings }, Ok::<(), String>(())),
            r,
        ),
    ensures
        r.note matches Some(n) && n.change_type@ == "channel_mapping_reorder"@ && n.reason@
            == "rest_api"@ && n.details@ == "Reordered "@ + decimal(mappings@.len())
            + " channel mappings"@,
        r.announcement matches Some(WebSocketEvent::ChannelMappings { mappings: list }) && views(
            list@,
        ) == views(mappings@),
        r.ends_streams,
        r.reply matches RestReply::Reordered { count } && count == mappings@.len(),
{
}

/// A change that was carried out ends the streams to all clients, which then are told; one that was not
/// ends none.
pub proof fn law_stored_change_ends_all_streams(
    change: MappingChange,
    stored: Result<(), String>,
    effects: ChangeEffects,
    state: &mut ServerState,
    r: Vec<ClientAddr>,
    addr: ClientAddr,
)
    requires
        call_ensures(MappingChange::effects, (change, stored), effects),
        call_ensures(end_streams, (&effects, state), r),
        old(state).wf(),
    ensures
        stored is Ok ==> !final(state)@.clients.contains_key(addr)
            && !final(state)@.partners.contains_key(addr) && (r@.contains(addr) <==> old(state)@.clients.contains_key(addr)),
        stored is Err ==> final(state)@ == old(state)@ && !r@.contains(addr),
        final(state)@ == (ServerStateView {
            clients: final(state)@.clients,
            partners: final(state)@.partners,
            ..old(state)@
        }),
{
}

/// The words that answers by REST give as their status.
pub proof fn law_status_words(reply: &RestReply, r: &'static str)
    requires
        call_ensures(RestReply::status, (reply,), r),
    ensures
        reply is Created ==> r@ == "created"@,
        reply is Updated ==> r@ == "updated"@,
        reply is Deleted ==> r@ == "deleted"@,
        reply is Reordered ==> r@ == "reordered"@,
        reply is Done ==> r@ == "ok"@,
        reply is Error ==> r@ == "error"@,
{
}

/// A request by REST becomes the change that it asks for, with all that it holds. An update at the
/// address of another channel is refused, and no other.
pub proof fn law_requests_become_changes(
    mapping: ChannelMapping,
    created: MappingChange,
    physical_channel: u8,
    updated: Result<MappingChange, RestReply>,
    deleted: MappingChange,
    list: Vec<ChannelMapping>,
    reordered: MappingChange,
)
    requires
        call_ensures(api_create_channel_mapping, (mapping,), created),
        call_ensures(api_update_channel_mapping, (physical_channel, mapping), updated),
        call_ensures(api_delete_channel_mapping, (physical_channel,), deleted),
        call_ensures(api_reorder_channel_mappings, (list,), reordered),
    ensures
        created matches MappingChange::Create { mapping: m } && m@ == mapping@,
        updated is Ok <==> mapping.physical_channel == physical_channel,
        updated matches Ok(change) ==> (change matches MappingChange::Update { mapping: m } && m@
            == mapping@),
        updated matches Err(reply) ==> (reply matches RestReply::Error { message } && message@
            == "Physical channel mismatch"@),
        deleted matches MappingChange::Delete { physical_channel: p } && p == physical_channel,
        reordered matches MappingChange::Reorder { mappings } && views(mappings@) == views(list@),
{
}

/// What a client says that it wants is kept as it was sent, channels, rate and compression; a request
/// for the time is answered with the client's time; signs of life are noted, mappings are told, and
/// what would change them is refused.
pub proof fn law_messages_are_acted_upon(message: WebSocketMessage, r: MessageAction)
    requires
        call_ensures(WebSocketMessage::action, (message,), r),
    ensures
        message matches WebSocketMessage::ClientConfig { payload } ==> (
        r matches MessageAction::KeepConfig { config } && config@.channels == payload@.channels
            && config.sample_rate == payload.sample_rate && config@.compression
            == payload@.compression),
        message matches WebSocketMessage::NtpRequest { t1 } ==> (r matches
            MessageAction::AnswerTime { t1: t } && t == t1),
        message is Heartbeat <==> r is NoteHeartbeat,
        message is ClientConfig <==> r is KeepConfig,
        message is GetChannelMappings <==> r is SendMappings,
        message is NtpRequest <==> r is AnswerTime,
{
}

/// What a client says over its socket that it wants is what is stored for it and read again, and
/// nothing else is stored; other messages store nothing.
pub proof fn law_said_config_is_stored(
    message: WebSocketMessage,
    action: MessageAction,
    database: &mut Database,
    ip: &str,
    port: u16,
    after: &Database,
    found: Option<ClientConfig>,
)
    requires
        call_ensures(WebSocketMessage::action, (message,), action),
        old(database).wf(),
        call_ensures(MessageAction::store, (&action, database, ip, port), ()),
        *after == *final(database),
        call_ensures(Database::get_client_config, (after, ip, port), found),
    ensures
        message matches WebSocketMessage::ClientConfig { payload } ==> (found matches Some(c)
            && c@.channels == payload@.channels && c.sample_rate == payload.sample_rate
            && c@.compression == payload@.compression),
        !(message is ClientConfig) ==> final(database)@ == old(database)@,
        final(database)@ == (TablesView { clients: final(database)@.clients, ..old(database)@ }),
{
    match action@ {
        MessageActionView::KeepConfig { config } => {
            law_client_config_reads_back(old(database)@.clients, ip@, port, config, ip@, port);
        },
        _ => {},
    }
}

/// After the messages of a client, what is stored for it is the payload of its last message that says
/// what it wants; where there was none, it is what was stored before.
pub proof fn law_last_config_is_stored(
    t: TablesView,
    messages: Seq<WebSocketMessageView>,
    ip: Seq<char>,
    port: u16,
    i: int,
    payload: ClientConfigView,
)
    requires
        is_consistent(t),
        forall|j: int| i < j < messages.len() ==> !(#[trigger] messages[j] is ClientConfig),
        0 <= i < messages.len() ==> messages[i] == (WebSocketMessageView::ClientConfig { payload }),
        -1 <= i < messages.len(),
    ensures
        i >= 0 ==> client_config_of(after_messages(t, messages, ip, port).clients, ip, port)
            == Some(payload),
        i < 0 ==> after_messages(t, messages, ip, port) == t,
    decreases messages.len(),
{
    if messages.len() > 0 {
        let init = messages.drop_last();
        let last = messages.len() - 1;
        law_messages_change_no_settings(t, init, ip, port, ip, port);
        if i < last {
            assert(!(messages[last] is ClientConfig));
            assert forall|j: int| i < j < init.len() implies !(#[trigger] init[j] is ClientConfig) by {
                assert(init[j] == messages[j]);
            }
            law_last_config_is_stored(t, init, ip, port, i, payload);
        } else {
            law_client_config_reads_back(
                after_messages(t, init, ip, port).clients,
                ip,
                port,
                payload,
                ip,
                port,
            );
        }
    }
}

/// A request for the time is answered with the client's own time, the time at which it came and the
/// time of the answer, each in its place.
pub proof fn law_times_are_told(
    t1: u64,
    t2: u64,
    t3: u64,
    given: WebSocketEvent,
    now: WebSocketEvent,
)
    requires
        call_ensures(ntp_response, (t1, t2, t3), given),
        call_ensures(answer_time, (t1, t2), now),
    ensures
        given == (WebSocketEvent::NtpResponse { t1, t2, t3 }),
        now matches WebSocketEvent::NtpResponse { t1: a, t2: b, t3: c } && a == t1 && b == t2
            && call_ensures(server_time_ms, (), c),
{
}

/// A notice of the time holds that time.
pub proof fn law_time_notice_holds_the_time(t: u64, given: WebSocketEvent, now: WebSocketEvent)
    requires
        call_ensures(time_sync_event_at, (t,), given),
        call_ensures(time_sync_event, (), now),
    ensures
        given == (WebSocketEvent::Event {
            payload: EventPayload::TimeSync { server_time_ms: t },
        }),
        now matches WebSocketEvent::Event {
            payload: EventPayload::TimeSync { server_time_ms: n },
        } && call_ensures(server_time_ms, (), n),
{
}

/// Clients are told all mappings that were read, in their order, and none where they could not be
/// read.
pub proof fn law_mappings_are_told(
    stored: Option<Vec<ChannelMapping>>,
    event: Option<WebSocketEvent>,
    list: Vec<ChannelMapping>,
)
    requires
        call_ensures(mappings_event, (stored,), event),
        call_ensures(api_channel_mappings, (stored,), list),
    ensures
        event is Some <==> stored is Some,
        stored matches Some(all) ==> (event matches Some(WebSocketEvent::ChannelMappings { mappings })
            && views(mappings@) == views(all@)) && views(list@) == views(all@),
        stored is None ==> list@.len() == 0,
{
    assert(views(list@).len() == list@.len());
}

/// The thresholds that clients are told are those that were read, or 100 and 200 where they could not
/// be read.
pub proof fn law_thresholds_are_told(stored: Option<(u32, u32)>, r: JitterThresholds)
    requires
        call_ensures(api_get_jitter_thresholds, (stored,), r),
    ensures
        stored matches Some(t) ==> r.interpolate == t.0 && r.drop == t.1,
        stored is None ==> r.interpolate == 100 && r.drop == 200,
{
}

/// The state of the server that clients are told is made of its settings, the mappings and the
/// thresholds.
pub proof fn law_status_tells_the_settings(
    settings: &Settings,
    mappings: Option<Vec<ChannelMapping>>,
    thresholds: Option<(u32, u32)>,
    r: StatusResponse,
)
    requires
        call_ensures(api_status, (settings, mappings, thresholds), r),
    ensures
        r.status@ == "running"@,
        r.compression@ == settings.compression@,
        r.sample_rate == settings.sample_rate,
        r.channels == settings.channels@.len(),
        mappings matches Some(list) ==> views(r.channel_mappings@) == views(list@),
        mappings is None ==> r.channel_mappings@.len() == 0,
        thresholds matches Some(t) ==> r.jitter_thresholds.interpolate == t.0
            && r.jitter_thresholds.drop == t.1,
        thresholds is None ==> r.jitter_thresholds.interpolate == 100 && r.jitter_thresholds.drop
            == 200,
{
    assert(views(r.channel_mappings@).len() == r.channel_mappings@.len());
}

/// A client that sets the thresholds is told whether they could be stored, and if not, why.
pub proof fn law_set_thresholds_are_answered(stored: Result<(), String>, r: RestReply)
    requires
        call_ensures(api_set_jitter_thresholds, (stored,), r),
    ensures
        stored is Ok <==> r is Done,
        stored matches Err(message) ==> (r matches RestReply::Error { message: m } && m@
            == message@),
{
}

/// A client that tells what it measured is told its own name and time, how many clients are sent audio,
/// how many packets were sent, and the two measures of the server, each in its place.
pub proof fn law_measures_are_answered(
    state: &ServerState,
    client: String,
    timestamp: String,
    cpu: u64,
    memory: u64,
    r: QosReply,
)
    requires
        call_ensures(qos_metrics, (state, client, timestamp, cpu, memory), r),
        state.wf(),
    ensures
        r.status@ == "ok"@,
        r.client@ == client@,
        r.timestamp@ == timestamp@,
        r.total_clients == state@.clients.dom().len(),
        r.total_packets_sent == state@.packets_sent,
        r.server_cpu_usage == cpu,
        r.server_memory_usage == memory,
{
}

} // verus!
