use m32_stream::api::{
    answer_time, api_channel_mappings, api_create_channel_mapping, api_delete_channel_mapping,
    api_get_jitter_thresholds, api_reorder_channel_mappings, api_set_jitter_thresholds, api_status,
    api_update_channel_mapping, mappings_event, ntp_response, qos_metrics, time_sync_event,
    end_streams, time_sync_event_at, EventPayload, JitterThresholds, MappingChange,
    MessageAction, RestReply, WebSocketEvent, WebSocketMessage,
};
use m32_stream::config::{default_settings, ClientConfig};
use m32_stream::database::Database;
use m32_stream::session::{ClientAddr, ServerState};
use m32_stream::tables::{ChannelMapping, Tables};

fn mapping(physical: u8, name: &str) -> ChannelMapping {
    ChannelMapping {
        physical_channel: physical,
        logical_channel: physical,
        name: name.to_string(),
        enabled: true,
        order_index: physical,
    }
}

fn new_database() -> Database {
    let rows = Tables {
        audio: Vec::new(),
        channels: Vec::new(),
        mappings: Vec::new(),
        clients: Vec::new(),
        qos: Vec::new(),
        changes: Vec::new(),
    };
    match Database::new(rows) {
        Ok(db) => db,
        Err(e) => panic!("{e:?}"),
    }
}

fn note(change: MappingChange) -> (String, String, String) {
    match change.effects(Ok(())).note {
        Some(n) => (n.change_type, n.reason, n.details),
        None => panic!("no note"),
    }
}

fn texts(kind: &str, reason: &str, details: &str) -> (String, String, String) {
    (kind.to_string(), reason.to_string(), details.to_string())
}

#[test]
fn messages_lead_to_actions() {
    let heartbeat = WebSocketMessage::Heartbeat { timestamp: "now".to_string() };
    assert!(matches!(heartbeat.action(), MessageAction::NoteHeartbeat));
    let payload = ClientConfig { channels: None, sample_rate: Some(44100), compression: None };
    let config = WebSocketMessage::ClientConfig { payload };
    assert!(matches!(
        config.action(),
        MessageAction::KeepConfig { config } if config.sample_rate == Some(44100)
    ));
    assert!(matches!(WebSocketMessage::GetChannelMappings.action(), MessageAction::SendMappings));
    let update = WebSocketMessage::UpdateChannelMapping { mapping: mapping(3, "Bass") };
    assert!(matches!(update.action(), MessageAction::Refuse));
    let delete = WebSocketMessage::DeleteChannelMapping { physical_channel: 3 };
    assert!(matches!(delete.action(), MessageAction::Refuse));
    let reorder = WebSocketMessage::ReorderChannelMappings { mappings: vec![mapping(3, "")] };
    assert!(matches!(reorder.action(), MessageAction::Refuse));
    let time = WebSocketMessage::NtpRequest { t1: 1721123456789 };
    assert!(matches!(time.action(), MessageAction::AnswerTime { t1: 1721123456789 }));
}

#[test]
fn messages_change_no_settings() {
    let mut db = new_database();
    let payload = ClientConfig { channels: None, sample_rate: Some(44100), compression: None };
    let messages = vec![
        WebSocketMessage::UpdateChannelMapping { mapping: mapping(1, "Mine") },
        WebSocketMessage::DeleteChannelMapping { physical_channel: 2 },
        WebSocketMessage::ReorderChannelMappings { mappings: vec![mapping(5, "")] },
        WebSocketMessage::ClientConfig { payload },
        WebSocketMessage::Heartbeat { timestamp: "now".to_string() },
    ];
    for message in messages {
        message.action().store(&mut db, "10.0.0.7", 40000);
    }
    assert!(matches!(db.get_client_config("10.0.0.7", 40000), Some(c) if c.sample_rate == Some(44100)));
    let (seen, fresh) = (db.into_tables(), new_database().into_tables());
    assert_eq!(format!("{:?}", seen.mappings), format!("{:?}", fresh.mappings));
    assert_eq!(format!("{:?}", seen.channels), format!("{:?}", fresh.channels));
    assert_eq!(format!("{:?}", seen.audio), format!("{:?}", fresh.audio));
}

#[test]
fn stored_change_ends_all_streams() {
    let wanted = || ClientConfig { channels: None, sample_rate: None, compression: None };
    let mut state = ServerState::new(default_settings());
    for host in 1..=3 {
        let client = ClientAddr { host, long: false, zone: 0, port: 0 };
        state.connect(client);
        state.remember_config(client, wanted());
        state.request_audio(client, 0, Some(&vec![mapping(1, "")]));
    }
    let failed = api_delete_channel_mapping(5).effects(Err("disk full".to_string()));
    assert!(!failed.ends_streams);
    assert_eq!(end_streams(&failed, &mut state), Vec::new());
    assert_eq!(state.client_count(), 3);
    let done = api_delete_channel_mapping(5).effects(Ok(()));
    assert!(done.ends_streams);
    assert!(done.announcement.is_some());
    assert_eq!(end_streams(&done, &mut state).len(), 3);
    assert_eq!(state.client_count(), 0);
    assert_eq!(state.audience().len(), 3);
}

#[test]
fn changes_are_noted() {
    assert_eq!(
        note(api_create_channel_mapping(mapping(5, ""))),
        texts("channel_mapping_create", "rest_api", "Created mapping for physical channel 5")
    );
    assert_eq!(
        note(MappingChange::Update { mapping: mapping(12, "") }),
        texts("channel_mapping_update", "rest_api", "Updated mapping for physical channel 12")
    );
    assert_eq!(
        note(api_delete_channel_mapping(255)),
        texts("channel_mapping_delete", "rest_api", "Deleted mapping for physical channel 255")
    );
    assert_eq!(
        note(api_reorder_channel_mappings(vec![mapping(1, ""), mapping(2, "")])),
        texts("channel_mapping_reorder", "rest_api", "Reordered 2 channel mappings")
    );
}

#[test]
fn changes_are_announced_and_answered() {
    let created = api_create_channel_mapping(mapping(5, "Vocal")).effects(Ok(()));
    assert!(matches!(
        created.announcement,
        Some(WebSocketEvent::ChannelMappingUpdated { mapping: m }) if m.name == "Vocal"
    ));
    assert_eq!(created.reply.status(), "created");
    let updated = MappingChange::Update { mapping: mapping(5, "Vocal") }.effects(Ok(()));
    assert!(matches!(updated.announcement, Some(WebSocketEvent::ChannelMappingUpdated { .. })));
    assert_eq!(updated.reply.status(), "updated");
    assert!(matches!(updated.reply, RestReply::Updated { mapping: m } if m.physical_channel == 5));
    let deleted = api_delete_channel_mapping(5).effects(Ok(()));
    assert!(matches!(
        deleted.announcement,
        Some(WebSocketEvent::ChannelMappingDeleted { physical_channel: 5 })
    ));
    assert_eq!(deleted.reply.status(), "deleted");
    let list = vec![mapping(2, ""), mapping(1, "")];
    let reordered = api_reorder_channel_mappings(list).effects(Ok(()));
    assert!(matches!(
        reordered.announcement,
        Some(WebSocketEvent::ChannelMappings { mappings }) if mappings[0].physical_channel == 2
    ));
    assert_eq!(reordered.reply.status(), "reordered");
    assert!(matches!(reordered.reply, RestReply::Reordered { count: 2 }));
}

#[test]
fn failed_change_is_told_to_nobody() {
    let failed = api_delete_channel_mapping(5).effects(Err("disk full".to_string()));
    assert!(failed.note.is_none());
    assert!(failed.announcement.is_none());
    assert_eq!(failed.reply.status(), "error");
    assert!(matches!(failed.reply, RestReply::Error { message } if message == "disk full"));
}

#[test]
fn changes_are_carried_out() {
    let mut db = new_database();
    api_create_channel_mapping(mapping(40, "Extra")).apply(&mut db);
    assert!(matches!(db.get_channel_mapping(40), Some(m) if m.name == "Extra"));
    MappingChange::Update { mapping: mapping(40, "Other") }.apply(&mut db);
    assert!(matches!(db.get_channel_mapping(40), Some(m) if m.name == "Other"));
    api_reorder_channel_mappings(vec![mapping(40, "")]).apply(&mut db);
    assert!(matches!(db.get_channel_mapping(40), Some(m) if m.order_index == 1));
    api_delete_channel_mapping(40).apply(&mut db);
    assert!(db.get_channel_mapping(40).is_none());
    assert_eq!(db.get_jitter_thresholds(), (100, 200));
}

#[test]
fn order_has_255_places() {
    let list = |n: usize| (0..n).map(|_| mapping(1, "")).collect::<Vec<_>>();
    assert!(api_reorder_channel_mappings(list(255)).feasible());
    assert!(!api_reorder_channel_mappings(list(256)).feasible());
    assert!(api_delete_channel_mapping(0).feasible());
}

#[test]
fn address_and_mapping_must_agree() {
    assert!(matches!(
        api_update_channel_mapping(5, mapping(5, "Vocal")),
        Ok(MappingChange::Update { mapping: m }) if m.name == "Vocal"
    ));
    assert!(matches!(
        api_update_channel_mapping(6, mapping(5, "Vocal")),
        Err(RestReply::Error { message }) if message == "Physical channel mismatch"
    ));
}

#[test]
fn mappings_are_told() {
    assert!(matches!(
        mappings_event(Some(vec![mapping(1, "One")])),
        Some(WebSocketEvent::ChannelMappings { mappings }) if mappings[0].name == "One"
    ));
    assert!(mappings_event(None).is_none());
    assert_eq!(api_channel_mappings(Some(vec![mapping(1, "One")])).len(), 1);
    assert_eq!(api_channel_mappings(None).len(), 0);
}

#[test]
fn time_is_told() {
    assert!(matches!(
        ntp_response(1721123456789, 1721123456790, 1721123456791),
        WebSocketEvent::NtpResponse { t1: 1721123456789, t2: 1721123456790, t3: 1721123456791 }
    ));
    assert!(matches!(
        answer_time(5, 7),
        WebSocketEvent::NtpResponse { t1: 5, t2: 7, t3 } if t3 > 1_500_000_000_000
    ));
    assert!(matches!(
        time_sync_event_at(77),
        WebSocketEvent::Event { payload: EventPayload::TimeSync { server_time_ms: 77 } }
    ));
    assert!(matches!(
        time_sync_event(),
        WebSocketEvent::Event { payload: EventPayload::TimeSync { server_time_ms } }
            if server_time_ms > 1_500_000_000_000
    ));
}

#[test]
fn status_is_told() {
    let known = api_status(&default_settings(), Some(vec![mapping(1, "One")]), Some((120, 250)));
    assert_eq!(known.status, "running");
    assert_eq!(known.compression, "none");
    assert_eq!(known.sample_rate, 48000);
    assert_eq!(known.channels, 32);
    assert_eq!(known.channel_mappings.len(), 1);
    assert_eq!(known.jitter_thresholds, JitterThresholds { interpolate: 120, drop: 250 });
    let unknown = api_status(&default_settings(), None, None);
    assert_eq!(unknown.channel_mappings.len(), 0);
    assert_eq!(unknown.jitter_thresholds, JitterThresholds { interpolate: 100, drop: 200 });
}

#[test]
fn thresholds_are_told_and_set() {
    assert_eq!(
        api_get_jitter_thresholds(Some((1, 2))),
        JitterThresholds { interpolate: 1, drop: 2 }
    );
    assert_eq!(
        api_get_jitter_thresholds(None),
        JitterThresholds { interpolate: 100, drop: 200 }
    );
    assert_eq!(api_set_jitter_thresholds(Ok(())).status(), "ok");
    let failed = api_set_jitter_thresholds(Err("locked".to_string()));
    assert!(matches!(failed, RestReply::Error { message } if message == "locked"));
}

#[test]
fn measurements_are_answered() {
    let mut state = ServerState::new(default_settings());
    let a = ClientAddr { host: 1, long: false, zone: 0, port: 9 };
    state.remember_config(a, ClientConfig { channels: None, sample_rate: None, compression: None });
    state.request_audio(a, 0, Some(&vec![mapping(1, "")]));
    state.count_packet();
    let r = qos_metrics(
        &state,
        "10.0.0.1:9".to_string(),
        "2024-01-01T12:00:00Z".to_string(),
        45.2f64.to_bits(),
        128.5f64.to_bits(),
    );
    assert_eq!(f64::from_bits(r.server_cpu_usage), 45.2);
    assert_eq!(f64::from_bits(r.server_memory_usage), 128.5);
    assert_eq!(r.status, "ok");
    assert_eq!(r.client, "10.0.0.1:9");
    assert_eq!(r.timestamp, "2024-01-01T12:00:00Z");
    assert_eq!((r.total_clients, r.total_packets_sent), (1, 1));
}
