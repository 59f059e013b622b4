use m32_stream::config::{ChannelConfig, ClientConfig};
use m32_stream::database::{Database, Inconsistency};
use m32_stream::sync::{mapping_steps, RowStep};
use m32_stream::tables::{AudioRow, ChannelMapping, ClientRow, Tables};

fn no_rows() -> Tables {
    Tables {
        audio: Vec::new(),
        channels: Vec::new(),
        mappings: Vec::new(),
        clients: Vec::new(),
        qos: Vec::new(),
        changes: Vec::new(),
    }
}

fn new_database() -> Database {
    match Database::new(no_rows()) {
        Ok(db) => db,
        Err(e) => panic!("{e:?}"),
    }
}

fn mapping(physical: u8, logical: u8, name: &str, enabled: bool, order: u8) -> ChannelMapping {
    ChannelMapping {
        physical_channel: physical,
        logical_channel: logical,
        name: name.to_string(),
        enabled,
        order_index: order,
    }
}

fn audio_row(id: i64) -> AudioRow {
    AudioRow {
        id,
        sample_rate: 44100,
        compression: "opus".to_string(),
        jitter_interpolate: 1,
        jitter_drop: 2,
        active: true,
    }
}

fn physical(list: &Vec<ChannelMapping>) -> Vec<u8> {
    list.iter().map(|m| m.physical_channel).collect()
}

fn client_row(ip: &str, port: u16) -> ClientRow {
    ClientRow {
        client_ip: ip.to_string(),
        client_port: port,
        sample_rate: 48000,
        compression: "none".to_string(),
        config: ClientConfig { channels: None, sample_rate: None, compression: None },
    }
}

#[test]
fn new_server_has_default_rows() {
    let db = new_database();
    assert_eq!(db.get_audio_config(), (48000, "none".to_string()));
    assert_eq!(db.get_jitter_thresholds(), (100, 200));
    let settings = db.get_settings();
    assert_eq!(settings.channels.len(), 32);
    assert_eq!(settings.channels[31].name, "CH32");
    let mappings = db.get_channel_mappings();
    assert_eq!(physical(&mappings), (1..=32).collect::<Vec<u8>>());
    assert!(mappings.iter().all(|m| m.logical_channel == m.physical_channel && m.enabled));
    assert_eq!(mappings[8].name, "CH09");
}

#[test]
fn without_active_audio_settings_the_defaults_hold() {
    let db = match Database::load(no_rows()) {
        Ok(db) => db,
        Err(e) => panic!("{e:?}"),
    };
    assert_eq!(db.get_audio_config(), (48000, "none".to_string()));
    assert_eq!(db.get_jitter_thresholds(), (100, 200));
    assert_eq!(db.get_channel_mappings().len(), 0);
    assert_eq!(db.get_settings().channels.len(), 0);
}

#[test]
fn starting_again_keeps_what_was_changed() {
    let mut db = new_database();
    db.update_channel_mapping(&mapping(3, 30, "Drums", false, 9));
    db.update_channel_config(3, "Drums", true);
    db.update_channel_config(4, "Spare", false);
    db.update_channel_config(4, "Spare", true);
    db.update_audio_config(44100, "opus");
    db.update_jitter_thresholds(120, 250);
    let again = match Database::new(db.into_tables()) {
        Ok(db) => db,
        Err(e) => panic!("{e:?}"),
    };
    assert_eq!(again.get_audio_config(), (44100, "opus".to_string()));
    assert_eq!(again.get_jitter_thresholds(), (120, 250));
    assert_eq!(again.get_settings().channels[2].name, "Drums");
    let kept = again.get_channel_mapping(3);
    assert!(matches!(kept, Some(m) if m.name == "Drums" && !m.enabled && m.logical_channel == 30));
    assert_eq!(again.get_channel_mappings().len(), 31);
    assert_eq!(again.get_settings().channels.len(), 32);
}

#[test]
fn first_audio_row_is_put_before_the_others() {
    let mut rows = no_rows();
    rows.audio = vec![audio_row(4)];
    let db = match Database::new(rows) {
        Ok(db) => db,
        Err(e) => panic!("{e:?}"),
    };
    assert_eq!(db.get_audio_config(), (48000, "none".to_string()));
    let ids: Vec<i64> = db.into_tables().audio.iter().map(|r| r.id).collect();
    assert_eq!(ids, vec![1, 4]);
}

#[test]
fn audio_rows_may_have_any_number() {
    let mut rows = no_rows();
    rows.audio = vec![audio_row(-7), audio_row(0), audio_row(4)];
    let mut db = match Database::load(rows) {
        Ok(db) => db,
        Err(e) => panic!("{e:?}"),
    };
    assert_eq!(db.get_audio_config(), (44100, "opus".to_string()));
    assert_eq!(db.get_jitter_thresholds(), (1, 2));
    db.init_tables();
    db.update_audio_config(32000, "none");
    let rows = db.into_tables().audio;
    let ids: Vec<(i64, bool)> = rows.iter().map(|r| (r.id, r.active)).collect();
    assert_eq!(ids, vec![(-7, false), (0, false), (1, false), (4, false), (5, true)]);
}

#[test]
fn missing_channels_alone_are_added() {
    let mut tables = new_database().into_tables();
    tables.channels.remove(9);
    tables.channels[0].name = "Vocal".to_string();
    let mut db = match Database::new(tables) {
        Ok(db) => db,
        Err(e) => panic!("{e:?}"),
    };
    let once = db.get_channel_configs();
    assert_eq!(once.len(), 32);
    assert_eq!(once[0].name, "Vocal");
    assert_eq!((once[9].id, once[9].name.as_str()), (10, "CH10"));
    db.init_tables();
    assert_eq!(format!("{:?}", db.get_channel_configs()), format!("{once:?}"));
}

#[test]
fn audio_settings_read_back() {
    let mut db = new_database();
    db.update_jitter_thresholds(120, 250);
    db.update_audio_config(32000, "opus");
    assert_eq!(db.get_audio_config(), (32000, "opus".to_string()));
    assert_eq!(db.get_jitter_thresholds(), (120, 250));
    let rows = db.into_tables().audio;
    assert_eq!(rows.iter().map(|r| (r.id, r.active)).collect::<Vec<_>>(), vec![(1, false), (2, true)]);
}

#[test]
fn jitter_thresholds_read_back() {
    let mut db = new_database();
    db.update_jitter_thresholds(120, 250);
    assert_eq!(db.get_jitter_thresholds(), (120, 250));
    assert_eq!(db.get_audio_config(), (48000, "none".to_string()));
}

#[test]
fn channels_are_renamed_and_hidden() {
    let mut db = new_database();
    db.update_channel_config(2, "Bass", true);
    db.update_channel_config(4, "Spare", false);
    db.update_channel_config(40, "Nobody", true);
    let channels = db.get_channel_configs();
    assert_eq!(channels.len(), 31);
    assert_eq!(channels[1].name, "Bass");
    assert_eq!(channels[3].id, 5);
}

#[test]
fn mapping_reads_back_and_others_stay() {
    let mut db = new_database();
    db.update_channel_mapping(&mapping(7, 1, "Vocal", true, 3));
    let found = db.get_channel_mapping(7);
    assert!(matches!(found, Some(m) if m.logical_channel == 1 && m.name == "Vocal" && m.order_index == 3));
    assert!(matches!(db.get_channel_mapping(8), Some(m) if m.name == "CH08"));
    assert!(db.get_channel_mapping(33).is_none());
    assert_eq!(db.get_channel_mappings().len(), 32);
}

#[test]
fn deleted_mapping_is_gone() {
    let mut db = new_database();
    db.delete_channel_mapping(7);
    db.delete_channel_mapping(77);
    assert!(db.get_channel_mapping(7).is_none());
    assert_eq!(db.get_logical_channel(7), None);
    assert_eq!(db.get_physical_channel(7), None);
    assert_eq!(db.get_active_channel_mappings().len(), 31);
}

#[test]
fn disabled_mapping_is_found_but_not_sent() {
    let mut db = new_database();
    db.update_channel_mapping(&mapping(7, 9, "Vocal", false, 3));
    assert!(db.get_channel_mapping(7).is_some());
    assert_eq!(db.get_logical_channel(7), None);
    assert_eq!(db.get_physical_channel(9), Some(9));
    assert!(!physical(&db.get_active_channel_mappings()).contains(&7));
}

#[test]
fn logical_and_physical_lead_to_each_other() {
    let mut db = new_database();
    db.update_channel_mapping(&mapping(1, 20, "A", true, 1));
    db.update_channel_mapping(&mapping(20, 1, "B", true, 20));
    assert_eq!(db.get_logical_channel(1), Some(20));
    assert_eq!(db.get_physical_channel(20), Some(1));
    for l in 1..=32 {
        if let Some(p) = db.get_physical_channel(l) {
            assert_eq!(db.get_logical_channel(p), Some(l));
        }
    }
}

#[test]
fn first_of_two_that_are_sent_as_one_is_found() {
    let mut db = new_database();
    db.update_channel_mapping(&mapping(2, 30, "Two", true, 2));
    // The mapping of channel 2 was written last, that of channel 30 stands before it.
    assert_eq!(db.get_physical_channel(30), Some(30));
    db.delete_channel_mapping(30);
    assert_eq!(db.get_physical_channel(30), Some(2));
}

#[test]
fn reordering_sets_the_order() {
    let mut db = new_database();
    for p in 4..=32 {
        db.delete_channel_mapping(p);
    }
    let list = vec![mapping(3, 0, "", false, 0), mapping(1, 0, "", false, 0)];
    db.reorder_channel_mappings(&list);
    let sent = db.get_active_channel_mappings();
    // Channel 2 keeps place 2, which channel 1 has now too; channel 1 was written first.
    assert_eq!(physical(&sent), vec![3, 1, 2]);
    assert_eq!(sent.iter().map(|m| m.order_index).collect::<Vec<_>>(), vec![1, 2, 2]);
    assert_eq!(sent[0].name, "CH03");
}

#[test]
fn last_place_in_a_list_counts() {
    let mut db = new_database();
    db.reorder_channel_mappings(&vec![
        mapping(5, 0, "", true, 0),
        mapping(6, 0, "", true, 0),
        mapping(5, 0, "", true, 0),
    ]);
    assert!(matches!(db.get_channel_mapping(5), Some(m) if m.order_index == 3));
    assert!(matches!(db.get_channel_mapping(6), Some(m) if m.order_index == 2));
}

#[test]
fn client_request_reads_back() {
    let mut db = new_database();
    let config = ClientConfig {
        channels: Some(vec![ChannelConfig { id: 1, name: "Vocal".to_string() }]),
        sample_rate: Some(44100),
        compression: Some("opus".to_string()),
    };
    let plain = ClientConfig { channels: None, sample_rate: None, compression: None };
    db.save_client_config("10.0.0.7", 40000, &plain);
    db.save_client_config("10.0.0.8", 40000, &plain);
    db.save_client_config("10.0.0.7", 40000, &config);
    let kept = db.get_client_config("10.0.0.7", 40000);
    assert_eq!(format!("{kept:?}"), format!("{:?}", Some(config)));
    assert!(matches!(db.get_client_config("10.0.0.8", 40000), Some(c) if c.channels.is_none()));
    assert!(db.get_client_config("10.0.0.7", 40001).is_none());
    let rows = db.into_tables().clients;
    assert_eq!(rows.len(), 2);
    assert_eq!((rows[0].sample_rate, rows[0].compression.as_str()), (48000, "none"));
    assert_eq!((rows[1].sample_rate, rows[1].compression.as_str()), (44100, "opus"));
}

#[test]
fn measurements_and_changes_are_recorded() {
    let mut db = new_database();
    let loss = 0.25f64;
    db.save_qos_metrics(
        "10.0.0.7",
        40000,
        1500,
        1501,
        loss.to_bits(),
        2.5f64.to_bits(),
        15.2f64.to_bits(),
        2.1f64.to_bits(),
    );
    db.log_config_change("kind", "why", "what");
    let t = db.into_tables();
    assert_eq!(t.qos.len(), 1);
    assert_eq!(t.qos[0].client_ip, "10.0.0.7");
    assert_eq!((t.qos[0].packets_received, t.qos[0].packets_expected), (1500, 1501));
    assert_eq!(f64::from_bits(t.qos[0].packet_loss_rate), 0.25);
    assert_eq!(f64::from_bits(t.qos[0].bandwidth_mbps), 2.1);
    assert_eq!(t.changes.len(), 1);
    assert_eq!(t.changes[0].change_type, "kind");
    assert_eq!(t.changes[0].reason, "why");
    assert_eq!(t.changes[0].details, "what");
}

#[test]
fn inconsistent_rows_are_refused() {
    let mut ids = no_rows();
    ids.audio = vec![audio_row(2), audio_row(2)];
    assert!(matches!(Database::load(ids), Err(Inconsistency::AudioIds)));
    let mut falling = no_rows();
    falling.audio = vec![audio_row(2), audio_row(1)];
    assert!(matches!(Database::new(falling), Err(Inconsistency::AudioIds)));
    let mut twice = no_rows();
    twice.mappings = vec![mapping(1, 1, "", true, 1), mapping(1, 2, "", true, 2)];
    assert!(matches!(Database::load(twice), Err(Inconsistency::PhysicalChannel)));
    let mut clients = no_rows();
    clients.clients = vec![client_row("a", 1), client_row("a", 2), client_row("a", 1)];
    assert!(matches!(Database::load(clients), Err(Inconsistency::ClientAddress)));
}

/// The stored rows after a list of steps.
fn carried_out(rows: &Vec<ChannelMapping>, steps: Vec<RowStep>) -> Vec<ChannelMapping> {
    let mut rows = rows.clone();
    for step in steps {
        match step {
            RowStep::Rewrite { mapping } => {
                for row in rows.iter_mut() {
                    if row.physical_channel == mapping.physical_channel {
                        *row = mapping.clone();
                    }
                }
            }
            RowStep::Delete { physical_channel } => {
                rows.retain(|r| r.physical_channel != physical_channel);
            }
            RowStep::Insert { mapping } => rows.push(mapping),
        }
    }
    rows
}

#[test]
fn rows_that_stay_are_not_touched() {
    let rows = vec![mapping(1, 1, "A", true, 1), mapping(2, 2, "B", true, 2), mapping(3, 3, "C", true, 3)];
    assert_eq!(mapping_steps(&rows, &rows).len(), 0);
    let mut moved = rows.clone();
    moved.remove(0);
    moved.push(mapping(1, 9, "A", true, 1));
    let steps = mapping_steps(&rows, &moved);
    assert!(matches!(
        steps.as_slice(),
        [RowStep::Delete { physical_channel: 1 }, RowStep::Insert { mapping: m }] if m.logical_channel == 9
    ));
    let mut changed = rows.clone();
    changed[1].order_index = 7;
    let steps = mapping_steps(&rows, &changed);
    assert!(matches!(
        steps.as_slice(),
        [RowStep::Rewrite { mapping: m }] if m.physical_channel == 2 && m.order_index == 7
    ));
}

#[test]
fn steps_lead_from_old_rows_to_new_ones() {
    let a = vec![mapping(1, 1, "A", true, 1), mapping(2, 2, "B", true, 2), mapping(3, 3, "C", true, 3)];
    let b = vec![mapping(3, 1, "X", true, 1), mapping(5, 2, "B", false, 2), mapping(1, 3, "C", true, 3)];
    for (old, new) in [(&a, &b), (&b, &a), (&a, &Vec::new()), (&Vec::new(), &b)] {
        let reached = carried_out(old, mapping_steps(old, new));
        assert_eq!(format!("{reached:?}"), format!("{new:?}"));
    }
}
