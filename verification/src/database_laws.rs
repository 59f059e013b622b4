//! What holds between the operations on the stored settings.

use crate::config::{
    default_name, ChannelConfig, ChannelConfigView, ClientConfig, ClientConfigView, Settings,
    USB_CHANNELS,
};
use crate::database::{
    active_mappings, audio_config, channel_of, channels_differ, client_config_of, client_row,
    clients_differ, default_channel_row, default_mapping, first_audio_place, has_id, is_active,
    is_channel, is_enabled, is_for, is_from, is_listed, is_not_for, is_not_from, is_sent_as,
    jitter_thresholds, lemma_first_audio_place, lemma_push_differs, lemma_with_client_differs,
    lemma_without_differs, listed_channels, logical_of, mapping_of, next_audio_id, physical_of,
    place_in, reordered, seeded, seeded_channels, seeded_mappings, with_audio_config, with_client_config,
    with_jitter_thresholds, with_mapping, without_mapping, Database, Inconsistency,
    DEFAULT_JITTER_DROP, DEFAULT_JITTER_INTERPOLATE,
};
use crate::rows::{
    first_where, has_rank, in_order, is_sorted, law_in_order, lemma_filter_member,
    lemma_first_where, lemma_first_where_only, views, Ranked,
};
use crate::tables::{
    AudioRowView, ChannelMapping, ChannelMappingView, ChannelRow, ChannelRowView, ClientRowView,
    Tables, TablesView,
};
use vstd::prelude::*;

verus! {

/// A mapping that is in the list is the one that is found for its channel.
proof fn lemma_member_is_found(rows: Seq<ChannelMappingView>, m: ChannelMappingView)
    requires
        channels_differ(rows),
        rows.contains(m),
    ensures
        mapping_of(rows, m.physical_channel) == Some(m),
{
    let at = rows.index_of(m);
    let p = is_for(m.physical_channel);
    assert forall|i: int| 0 <= i < rows.len() && p(#[trigger] rows[i]) implies i == at by {
        if i < at {
            assert(rows[i].physical_channel != rows[at].physical_channel);
        }
        if at < i {
            assert(rows[at].physical_channel != rows[i].physical_channel);
        }
    }
    lemma_first_where_only(rows, p, at);
}

/// Lists with the same mapping of a channel, or both with none, give the same answer.
proof fn lemma_same_mapping(
    a: Seq<ChannelMappingView>,
    b: Seq<ChannelMappingView>,
    physical_channel: u8,
)
    requires
        channels_differ(a),
        channels_differ(b),
        forall|m: ChannelMappingView|
            m.physical_channel == physical_channel ==> #[trigger] a.contains(m) == b.contains(m),
    ensures
        mapping_of(a, physical_channel) == mapping_of(b, physical_channel),
{
    lemma_first_where(a, is_for(physical_channel));
    lemma_first_where(b, is_for(physical_channel));
    match mapping_of(a, physical_channel) {
        Some(m) => {
            assert(b.contains(m));
            lemma_member_is_found(b, m);
        },
        None => {
            match mapping_of(b, physical_channel) {
                Some(m) => {
                    assert(a.contains(m));
                    lemma_member_is_found(a, m);
                },
                None => {},
            }
        },
    }
}

pub proof fn lemma_without_members(
    rows: Seq<ChannelMappingView>,
    physical_channel: u8,
    m: ChannelMappingView,
)
    ensures
        without_mapping(rows, physical_channel).contains(m) == (rows.contains(m)
            && m.physical_channel != physical_channel),
{
    let kept_by = is_not_for(physical_channel);
    let kept = rows.filter(kept_by);
    if kept.contains(m) {
        let i = kept.index_of(m);
        lemma_filter_member(rows, kept_by, i);
    }
    if rows.contains(m) && m.physical_channel != physical_channel {
        let i = rows.index_of(m);
        rows.lemma_filter_contains(kept_by, i);
    }
}

/// The mapping that was written for a channel is the one that is read for it, and the mappings
/// of the other channels are read as before.
pub proof fn law_mapping_reads_back(
    rows: Seq<ChannelMappingView>,
    m: ChannelMappingView,
    other: u8,
)
    requires
        channels_differ(rows),
    ensures
        mapping_of(with_mapping(rows, m), m.physical_channel) == Some(m),
        other != m.physical_channel ==> mapping_of(with_mapping(rows, m), other) == mapping_of(
            rows,
            other,
        ),
{
    let now = with_mapping(rows, m);
    lemma_without_differs(rows, m.physical_channel);
    lemma_push_differs(without_mapping(rows, m.physical_channel), m);
    assert(now[now.len() - 1] == m);
    assert(now.contains(m));
    lemma_member_is_found(now, m);
    if other != m.physical_channel {
        let kept = without_mapping(rows, m.physical_channel);
        assert forall|x: ChannelMappingView| x.physical_channel == other implies
            #[trigger] now.contains(x) == rows.contains(x) by {
            lemma_without_members(rows, m.physical_channel, x);
            if now.contains(x) {
                let i = now.index_of(x);
                assert(i < kept.len());
                assert(kept[i] == x);
            }
            if kept.contains(x) {
                let i = kept.index_of(x);
                assert(now[i] == x);
            }
        }
        lemma_same_mapping(now, rows, other);
    }
}

/// A channel whose mapping was deleted has none, and the mappings of the other channels are read
/// as before.
pub proof fn law_deleted_mapping_is_gone(
    rows: Seq<ChannelMappingView>,
    physical_channel: u8,
    other: u8,
)
    requires
        channels_differ(rows),
    ensures
        mapping_of(without_mapping(rows, physical_channel), physical_channel) is None,
        logical_of(without_mapping(rows, physical_channel), physical_channel) is None,
        other != physical_channel ==> mapping_of(without_mapping(rows, physical_channel), other)
            == mapping_of(rows, other),
{
    let now = without_mapping(rows, physical_channel);
    lemma_without_differs(rows, physical_channel);
    lemma_first_where(now, is_for(physical_channel));
    match mapping_of(now, physical_channel) {
        Some(m) => {
            lemma_without_members(rows, physical_channel, m);
        },
        None => {},
    }
    if other != physical_channel {
        assert forall|x: ChannelMappingView| x.physical_channel == other implies
            #[trigger] now.contains(x) == rows.contains(x) by {
            lemma_without_members(rows, physical_channel, x);
        }
        lemma_same_mapping(now, rows, other);
    }
}

/// The physical channel that is found for a logical one is sent as that logical one.
pub proof fn law_physical_leads_back(rows: Seq<ChannelMappingView>, logical_channel: u8)
    requires
        channels_differ(rows),
    ensures
        match physical_of(rows, logical_channel) {
            Some(p) => logical_of(rows, p) == Some(logical_channel),
            None => forall|p: u8| #[trigger] logical_of(rows, p) != Some(logical_channel),
        },
{
    let wanted = is_sent_as(logical_channel);
    lemma_first_where(rows, wanted);
    match first_where(rows, wanted) {
        Some(m) => {
            lemma_member_is_found(rows, m);
        },
        None => {
            assert forall|p: u8| #[trigger] logical_of(rows, p) != Some(logical_channel) by {
                lemma_first_where(rows, is_for(p));
                match mapping_of(rows, p) {
                    Some(m) => {
                        let i = rows.index_of(m);
                        assert(!wanted(rows[i]));
                    },
                    None => {},
                }
            }
        },
    }
}

/// Where no two mappings that are sent have the same logical channel, a channel that is sent is
/// found again from the logical channel that it is sent as.
pub proof fn law_logical_leads_back(rows: Seq<ChannelMappingView>, physical_channel: u8)
    requires
        channels_differ(rows),
        forall|i: int, j: int|
            0 <= i < j < rows.len() && (#[trigger] rows[i]).enabled && (#[trigger] rows[j]).enabled
                ==> rows[i].logical_channel != rows[j].logical_channel,
    ensures
        logical_of(rows, physical_channel) matches Some(l) ==> physical_of(rows, l) == Some(
            physical_channel,
        ),
{
    lemma_first_where(rows, is_for(physical_channel));
    match mapping_of(rows, physical_channel) {
        Some(m) => {
            if m.enabled {
                let at = rows.index_of(m);
                let wanted = is_sent_as(m.logical_channel);
                assert forall|i: int| 0 <= i < rows.len() && wanted(#[trigger] rows[i]) implies i
                    == at by {
                    if i < at {
                        assert(rows[i].logical_channel != rows[at].logical_channel);
                    }
                    if at < i {
                        assert(rows[at].logical_channel != rows[i].logical_channel);
                    }
                }
                lemma_first_where_only(rows, wanted, at);
            }
        },
        None => {},
    }
}

/// The audio settings that were written are the ones in force, with the thresholds that were in
/// force before, and no others are active.
pub proof fn law_audio_config_reads_back(
    rows: Seq<AudioRowView>,
    sample_rate: u32,
    compression: Seq<char>,
)
    ensures
        audio_config(with_audio_config(rows, sample_rate, compression)) == (
            sample_rate,
            compression,
        ),
        jitter_thresholds(with_audio_config(rows, sample_rate, compression)) == jitter_thresholds(
            rows,
        ),
        forall|i: int|
            0 <= i <= rows.len() ==> (#[trigger] with_audio_config(
                rows,
                sample_rate,
                compression,
            )[i]).active == (i == rows.len()),
{
    let now = with_audio_config(rows, sample_rate, compression);
    let at = now.len() - 1;
    assert forall|i: int| 0 <= i < now.len() && is_active()(#[trigger] now[i]) implies i == at by {
        if i < at {
            assert(!now[i].active);
        }
    }
    lemma_first_where_only(now, is_active(), at);
}

/// Searches of two lists that `pred` tells nothing apart in end at the same place.
proof fn lemma_same_place<A>(a: Seq<A>, b: Seq<A>, pred: spec_fn(A) -> bool) -> (at: int)
    requires
        a.len() == b.len(),
        forall|i: int| 0 <= i < a.len() ==> pred(#[trigger] a[i]) == pred(b[i]),
    ensures
        0 <= at < a.len() ==> pred(a[at]) && first_where(a, pred) == Some(a[at]) && first_where(
            b,
            pred,
        ) == Some(b[at]),
        !(0 <= at < a.len()) ==> first_where(a, pred) is None && first_where(b, pred) is None,
    decreases a.len(),
{
    if a.len() == 0 {
        -1
    } else if pred(a[0]) {
        0
    } else {
        assert forall|i: int| 0 <= i < a.skip(1).len() implies pred(#[trigger] a.skip(1)[i])
            == pred(b.skip(1)[i]) by {
            assert(pred(a[i + 1]) == pred(b[i + 1]));
        }
        let at = lemma_same_place(a.skip(1), b.skip(1), pred);
        if 0 <= at < a.len() - 1 {
            at + 1
        } else {
            -1
        }
    }
}

/// The jitter thresholds that were written are the ones in force, where there are audio settings
/// in force; the rest of those settings stays.
pub proof fn law_jitter_thresholds_read_back(rows: Seq<AudioRowView>, interpolate: u32, drop: u32)
    ensures
        first_where(rows, is_active()) is Some ==> jitter_thresholds(
            with_jitter_thresholds(rows, interpolate, drop),
        ) == (interpolate, drop),
        first_where(rows, is_active()) is None ==> jitter_thresholds(
            with_jitter_thresholds(rows, interpolate, drop),
        ) == (DEFAULT_JITTER_INTERPOLATE, DEFAULT_JITTER_DROP),
        audio_config(with_jitter_thresholds(rows, interpolate, drop)) == audio_config(rows),
{
    let now = with_jitter_thresholds(rows, interpolate, drop);
    assert forall|i: int| 0 <= i < now.len() implies is_active()(#[trigger] now[i])
        == is_active()(rows[i]) by {}
    let at = lemma_same_place(now, rows, is_active());
}

/// What a client asked for is what is read for it, and what others asked for is read as before.
pub proof fn law_client_config_reads_back(
    rows: Seq<ClientRowView>,
    ip: Seq<char>,
    port: u16,
    config: ClientConfigView,
    other_ip: Seq<char>,
    other_port: u16,
)
    requires
        clients_differ(rows),
    ensures
        client_config_of(with_client_config(rows, ip, port, config), ip, port) == Some(config),
        (other_ip != ip || other_port != port) ==> client_config_of(
            with_client_config(rows, ip, port, config),
            other_ip,
            other_port,
        ) == client_config_of(rows, other_ip, other_port),
{
    let now = with_client_config(rows, ip, port, config);
    let kept_by = is_not_from(ip, port);
    let kept = rows.filter(kept_by);
    let own = client_row(ip, port, config);
    lemma_with_client_differs(rows, ip, port, config);
    assert(now[now.len() - 1] == own);
    assert(now.contains(own));
    lemma_client_is_found(now, own);
    if other_ip != ip || other_port != port {
        let wanted = is_from(other_ip, other_port);
        lemma_first_where(rows, wanted);
        lemma_first_where(now, wanted);
        match first_where(rows, wanted) {
            Some(r) => {
                let i = rows.index_of(r);
                rows.lemma_filter_contains(kept_by, i);
                let k = kept.index_of(r);
                assert(now[k] == r);
                assert(now.contains(r));
                lemma_client_is_found(now, r);
            },
            None => {
                match first_where(now, wanted) {
                    Some(r) => {
                        let k = now.index_of(r);
                        assert(k < kept.len());
                        assert(kept[k] == r);
                        lemma_filter_member(rows, kept_by, k);
                        let i = rows.index_of(r);
                        assert(!wanted(rows[i]));
                    },
                    None => {},
                }
            },
        }
    }
}

proof fn lemma_client_is_found(rows: Seq<ClientRowView>, r: ClientRowView)
    requires
        clients_differ(rows),
        rows.contains(r),
    ensures
        first_where(rows, is_from(r.client_ip, r.client_port)) == Some(r),
{
    let at = rows.index_of(r);
    let wanted = is_from(r.client_ip, r.client_port);
    assert forall|i: int| 0 <= i < rows.len() && wanted(#[trigger] rows[i]) implies i == at by {
        if i < at {
            assert(rows[i].client_ip != rows[at].client_ip || rows[i].client_port
                != rows[at].client_port);
        }
        if at < i {
            assert(rows[at].client_ip != rows[i].client_ip || rows[at].client_port
                != rows[i].client_port);
        }
    }
    lemma_first_where_only(rows, wanted, at);
}

proof fn lemma_found_in_longer(
    rows: Seq<ChannelMappingView>,
    m: ChannelMappingView,
    physical_channel: u8,
)
    ensures
        mapping_of(rows, physical_channel) is Some ==> mapping_of(rows.push(m), physical_channel)
            == mapping_of(rows, physical_channel),
        mapping_of(rows, physical_channel) is None ==> mapping_of(rows.push(m), physical_channel)
            == if m.physical_channel == physical_channel {
            Some(m)
        } else {
            None
        },
    decreases rows.len(),
{
    if rows.len() == 0 {
        assert(rows.push(m)[0] == m);
        assert(rows.push(m).skip(1) =~= Seq::empty());
        assert(mapping_of(Seq::<ChannelMappingView>::empty(), physical_channel) is None);
    } else {
        assert(rows.push(m)[0] == rows[0]);
        assert(rows.push(m).skip(1) =~= rows.skip(1).push(m));
        if rows[0].physical_channel != physical_channel {
            lemma_found_in_longer(rows.skip(1), m, physical_channel);
        }
    }
}

proof fn lemma_seeded_up_to(rows: Seq<ChannelMappingView>, n: u8, physical_channel: u8)
    ensures
        mapping_of(rows, physical_channel) is Some ==> mapping_of(
            seeded_mappings(rows, n),
            physical_channel,
        ) == mapping_of(rows, physical_channel),
        mapping_of(rows, physical_channel) is None ==> mapping_of(
            seeded_mappings(rows, n),
            physical_channel,
        ) == if 1 <= physical_channel <= n {
            Some(default_mapping(physical_channel))
        } else {
            None
        },
    decreases n,
{
    if n > 0 {
        lemma_seeded_up_to(rows, (n - 1) as u8, physical_channel);
        let before = seeded_mappings(rows, (n - 1) as u8);
        lemma_found_in_longer(before, default_mapping(n), physical_channel);
    }
}

/// Starting the server changes no mapping that is there, and gives each of the console's channels
/// that has none its default mapping.
pub proof fn law_seeding_mappings(rows: Seq<ChannelMappingView>, physical_channel: u8)
    ensures
        mapping_of(seeded_mappings(rows, USB_CHANNELS), physical_channel) == (
        if mapping_of(rows, physical_channel) is Some {
            mapping_of(rows, physical_channel)
        } else if 1 <= physical_channel <= USB_CHANNELS {
            Some(default_mapping(physical_channel))
        } else {
            None
        }),
{
    lemma_seeded_up_to(rows, USB_CHANNELS, physical_channel);
}

proof fn lemma_nothing_to_seed(rows: Seq<ChannelMappingView>, n: u8)
    requires
        forall|p: u8| 1 <= p <= n ==> #[trigger] mapping_of(rows, p) is Some,
    ensures
        seeded_mappings(rows, n) == rows,
    decreases n,
{
    if n > 0 {
        lemma_nothing_to_seed(rows, (n - 1) as u8);
        assert(mapping_of(rows, n) is Some);
    }
}

proof fn lemma_channel_in_longer(rows: Seq<ChannelRowView>, r: ChannelRowView, channel_id: u8)
    ensures
        channel_of(rows, channel_id) is Some ==> channel_of(rows.push(r), channel_id)
            == channel_of(rows, channel_id),
        channel_of(rows, channel_id) is None ==> channel_of(rows.push(r), channel_id)
            == if r.channel_id == channel_id {
            Some(r)
        } else {
            None
        },
    decreases rows.len(),
{
    if rows.len() == 0 {
        assert(rows.push(r)[0] == r);
        assert(rows.push(r).skip(1) =~= Seq::empty());
        assert(channel_of(Seq::<ChannelRowView>::empty(), channel_id) is None);
    } else {
        assert(rows.push(r)[0] == rows[0]);
        assert(rows.push(r).skip(1) =~= rows.skip(1).push(r));
        if rows[0].channel_id != channel_id {
            lemma_channel_in_longer(rows.skip(1), r, channel_id);
        }
    }
}

proof fn lemma_channels_seeded_up_to(rows: Seq<ChannelRowView>, n: u8, channel_id: u8)
    ensures
        channel_of(rows, channel_id) is Some ==> channel_of(seeded_channels(rows, n), channel_id)
            == channel_of(rows, channel_id),
        channel_of(rows, channel_id) is None ==> channel_of(seeded_channels(rows, n), channel_id)
            == if 1 <= channel_id <= n {
            Some(default_channel_row(channel_id))
        } else {
            None
        },
    decreases n,
{
    if n > 0 {
        lemma_channels_seeded_up_to(rows, (n - 1) as u8, channel_id);
        let before = seeded_channels(rows, (n - 1) as u8);
        lemma_channel_in_longer(before, default_channel_row(n), channel_id);
    }
}

/// Whether no two rows are for the same channel.
pub open spec fn listed_once(rows: Seq<ChannelRowView>) -> bool {
    forall|i: int, j: int|
        0 <= i < j < rows.len() ==> (#[trigger] rows[i]).channel_id != (
        #[trigger] rows[j]).channel_id
}

proof fn lemma_seeded_once(rows: Seq<ChannelRowView>, n: u8)
    requires
        listed_once(rows),
    ensures
        listed_once(seeded_channels(rows, n)),
    decreases n,
{
    if n > 0 {
        lemma_seeded_once(rows, (n - 1) as u8);
        let before = seeded_channels(rows, (n - 1) as u8);
        lemma_first_where(before, is_channel(n));
        if channel_of(before, n) is None {
            let now = before.push(default_channel_row(n));
            assert forall|i: int, j: int| 0 <= i < j < now.len() implies (
            #[trigger] now[i]).channel_id != (#[trigger] now[j]).channel_id by {
                assert(now[i] == before[i]);
                assert(!is_channel(n)(before[i]));
                if j < before.len() {
                    assert(now[j] == before[j]);
                }
            }
        }
    }
}

/// Starting the server changes no channel that is there, gives each of the console's channels that
/// has no row its default one, and makes no second row for any.
pub proof fn law_seeding_channels(rows: Seq<ChannelRowView>, channel_id: u8)
    ensures
        channel_of(seeded_channels(rows, USB_CHANNELS), channel_id) == (
        if channel_of(rows, channel_id) is Some {
            channel_of(rows, channel_id)
        } else if 1 <= channel_id <= USB_CHANNELS {
            Some(default_channel_row(channel_id))
        } else {
            None
        }),
        listed_once(rows) ==> listed_once(seeded_channels(rows, USB_CHANNELS)),
{
    lemma_channels_seeded_up_to(rows, USB_CHANNELS, channel_id);
    if listed_once(rows) {
        lemma_seeded_once(rows, USB_CHANNELS);
    }
}

/// Where no two rows are for the same channel, clients are shown no channel twice.
pub proof fn law_channels_are_shown_once(rows: Seq<ChannelRowView>, i: int, j: int)
    requires
        listed_once(rows),
        0 <= i < j < listed_channels(rows).len(),
    ensures
        listed_channels(rows)[i].id != listed_channels(rows)[j].id,
{
    let key = |r: ChannelRowView| r.channel_id as int;
    let kept = rows.filter(is_listed());
    assert(keys_differ(rows, key));
    lemma_kept_differ(rows, key, is_listed());
    lemma_ordered_differ::<ChannelRow>(kept, key);
    let shown = in_order::<ChannelRow>(kept);
    assert(key(shown[i]) != key(shown[j]));
}

proof fn lemma_no_channel_to_seed(rows: Seq<ChannelRowView>, n: u8)
    requires
        forall|c: u8| 1 <= c <= n ==> #[trigger] channel_of(rows, c) is Some,
    ensures
        seeded_channels(rows, n) == rows,
    decreases n,
{
    if n > 0 {
        lemma_no_channel_to_seed(rows, (n - 1) as u8);
        assert(channel_of(rows, n) is Some);
    }
}

/// Starting the server once more changes nothing.
pub proof fn law_seeding_again(t: TablesView)
    ensures
        seeded(seeded(t)) == seeded(t),
{
    let once = seeded(t);
    assert forall|p: u8| 1 <= p <= USB_CHANNELS implies #[trigger] mapping_of(once.mappings, p) is Some by {
        law_seeding_mappings(t.mappings, p);
    }
    lemma_nothing_to_seed(once.mappings, USB_CHANNELS);
    assert forall|c: u8| 1 <= c <= USB_CHANNELS implies #[trigger] channel_of(once.channels, c) is Some by {
        law_seeding_channels(t.channels, c);
    }
    lemma_no_channel_to_seed(once.channels, USB_CHANNELS);
    lemma_first_where(once.audio, has_id(1));
    if first_where(t.audio, has_id(1)) is None {
        lemma_first_audio_place(t.audio);
        assert(has_id(1)(once.audio[first_audio_place(t.audio) as int]));
    }
    assert(seeded(once) =~= once);
}

proof fn lemma_place_in(list: Seq<ChannelMappingView>, physical_channel: u8, otherwise: u8)
    requires
        channels_differ(list),
        list.len() <= 255,
    ensures
        forall|i: int|
            0 <= i < list.len() && (#[trigger] list[i]).physical_channel == physical_channel
                ==> place_in(list, physical_channel, otherwise) == i + 1,
        (forall|i: int| 0 <= i < list.len() ==> (#[trigger] list[i]).physical_channel
            != physical_channel) ==> place_in(list, physical_channel, otherwise) == otherwise,
    decreases list.len(),
{
    if list.len() > 0 {
        let init = list.drop_last();
        assert forall|i: int, j: int| 0 <= i < j < init.len() implies (
        #[trigger] init[i]).physical_channel != (#[trigger] init[j]).physical_channel by {
            assert(init[i] == list[i] && init[j] == list[j]);
        }
        lemma_place_in(init, physical_channel, otherwise);
        assert forall|i: int|
            0 <= i < list.len() && (#[trigger] list[i]).physical_channel
                == physical_channel implies place_in(list, physical_channel, otherwise) == i + 1 by {
            let last = list.len() - 1;
            if i < last {
                assert(list[i].physical_channel != list[last].physical_channel);
                assert(init[i] == list[i]);
            }
        }
        if forall|i: int| 0 <= i < list.len() ==> (#[trigger] list[i]).physical_channel
            != physical_channel {
            assert forall|i: int| 0 <= i < init.len() implies (#[trigger] init[i]).physical_channel
                != physical_channel by {
                assert(init[i] == list[i]);
            }
            assert(list[list.len() - 1] == list.last());
        }
    }
}

/// After a reordering by a list that names no channel twice, each mapping has the place at which
/// the list names it, counted from 1, or its old place where the list does not name it. Nothing
/// else of a mapping changes.
pub proof fn law_reorder_sets_places(
    rows: Seq<ChannelMappingView>,
    list: Seq<ChannelMappingView>,
    physical_channel: u8,
)
    requires
        channels_differ(rows),
        channels_differ(list),
        list.len() <= 255,
    ensures
        match mapping_of(rows, physical_channel) {
            Some(m) => {
                &&& mapping_of(reordered(rows, list), physical_channel) matches Some(n)
                &&& n == (ChannelMappingView { order_index: n.order_index, ..m })
                &&& forall|i: int|
                    0 <= i < list.len() && (#[trigger] list[i]).physical_channel
                        == physical_channel ==> n.order_index == i + 1
                &&& (forall|i: int|
                    0 <= i < list.len() ==> (#[trigger] list[i]).physical_channel
                        != physical_channel) ==> n == m
            },
            None => mapping_of(reordered(rows, list), physical_channel) is None,
        },
{
    let now = reordered(rows, list);
    let p = is_for(physical_channel);
    assert forall|i: int| 0 <= i < now.len() implies p(#[trigger] now[i]) == p(rows[i]) by {}
    let at = lemma_same_place(now, rows, p);
    if 0 <= at < now.len() {
        lemma_place_in(list, physical_channel, rows[at].order_index);
        let m = rows[at];
        let n = now[at];
        if forall|i: int| 0 <= i < list.len() ==> (#[trigger] list[i]).physical_channel
            != physical_channel {
            assert(n =~= m);
        }
    }
}

/// Whether no two items have the same key.
spec fn keys_differ<A>(s: Seq<A>, key: spec_fn(A) -> int) -> bool {
    forall|i: int, j: int| 0 <= i < j < s.len() ==> key(#[trigger] s[i]) != key(#[trigger] s[j])
}

/// Leaving items out leaves no two with the same key.
proof fn lemma_kept_differ<A>(s: Seq<A>, key: spec_fn(A) -> int, kept_by: spec_fn(A) -> bool)
    requires
        keys_differ(s, key),
    ensures
        keys_differ(s.filter(kept_by), key),
    decreases s.len(),
{
    reveal(Seq::filter);
    if s.len() > 0 {
        let init = s.drop_last();
        assert forall|i: int, j: int| 0 <= i < j < init.len() implies key(#[trigger] init[i])
            != key(#[trigger] init[j]) by {
            assert(init[i] == s[i] && init[j] == s[j]);
        }
        lemma_kept_differ(init, key, kept_by);
        if kept_by(s.last()) {
            let rest = init.filter(kept_by);
            let all = rest.push(s.last());
            assert forall|i: int, j: int| 0 <= i < j < all.len() implies key(#[trigger] all[i])
                != key(#[trigger] all[j]) by {
                assert(all[i] == rest[i]);
                if j < rest.len() {
                    assert(all[j] == rest[j]);
                } else {
                    lemma_filter_member(init, kept_by, i);
                    let k = init.index_of(rest[i]);
                    assert(s[k] == rest[i]);
                    assert(s[s.len() - 1] == s.last());
                }
            }
        }
    }
}

/// An item that is twice in a list is twice among what a filter keeps of it.
proof fn lemma_pair_is_kept<A>(s: Seq<A>, pred: spec_fn(A) -> bool, i: int, j: int) -> (r: (
    int,
    int,
))
    requires
        0 <= i < j < s.len(),
        s[i] == s[j],
        pred(s[i]),
    ensures
        0 <= r.0 < r.1 < s.filter(pred).len(),
        s.filter(pred)[r.0] == s[i],
        s.filter(pred)[r.1] == s[i],
    decreases s.len(),
{
    reveal(Seq::filter);
    let init = s.drop_last();
    if j < s.len() - 1 {
        assert(init[i] == s[i] && init[j] == s[j]);
        lemma_pair_is_kept(init, pred, i, j)
    } else {
        assert(init[i] == s[i]);
        init.lemma_filter_contains(pred, i);
        let x = init.filter(pred).index_of(s[i]);
        (x, s.filter(pred).len() - 1)
    }
}

/// Putting rows in order leaves no two with the same key.
proof fn lemma_ordered_differ<T: Ranked>(rows: Seq<T::V>, key: spec_fn(T::V) -> int)
    requires
        keys_differ(rows, key),
    ensures
        keys_differ(in_order::<T>(rows), key),
{
    let r = in_order::<T>(rows);
    law_in_order::<T>(rows);
    assert forall|i: int, j: int| 0 <= i < j < r.len() implies key(#[trigger] r[i]) != key(
        #[trigger] r[j],
    ) by {
        if key(r[i]) == key(r[j]) {
            assert(r.contains(r[i]) && r.contains(r[j]));
            let a = rows.index_of(r[i]);
            let b = rows.index_of(r[j]);
            if a < b {
                assert(key(rows[a]) != key(rows[b]));
            }
            if b < a {
                assert(key(rows[b]) != key(rows[a]));
            }
            let p = has_rank::<T>(T::rank(r[i]));
            let (x, y) = lemma_pair_is_kept(r, p, i, j);
            assert(r.filter(p) == rows.filter(p));
            lemma_kept_differ(rows, key, p);
            assert(key(rows.filter(p)[x]) != key(rows.filter(p)[y]));
        }
    }
}

/// The mappings that are sent are those that are enabled, by rising place in the order, and none
/// of them twice.
pub proof fn law_active_mappings(rows: Seq<ChannelMappingView>)
    requires
        channels_differ(rows),
    ensures
        channels_differ(active_mappings(rows)),
        forall|m: ChannelMappingView| #[trigger]
            active_mappings(rows).contains(m) == (rows.contains(m) && m.enabled),
        is_sorted::<ChannelMapping>(active_mappings(rows)),
{
    let kept = rows.filter(is_enabled());
    law_in_order::<ChannelMapping>(kept);
    let key = |m: ChannelMappingView| m.physical_channel as int;
    assert(keys_differ(rows, key));
    lemma_kept_differ(rows, key, is_enabled());
    lemma_ordered_differ::<ChannelMapping>(kept, key);
    let sent = active_mappings(rows);
    assert forall|i: int, j: int| 0 <= i < j < sent.len() implies (
    #[trigger] sent[i]).physical_channel != (#[trigger] sent[j]).physical_channel by {
        assert(key(sent[i]) != key(sent[j]));
    }
    assert forall|m: ChannelMappingView| #[trigger]
        active_mappings(rows).contains(m) == (rows.contains(m) && m.enabled) by {
        assert(active_mappings(rows).contains(m) == kept.contains(m));
        if kept.contains(m) {
            let i = kept.index_of(m);
            lemma_filter_member(rows, is_enabled(), i);
        }
        if rows.contains(m) && m.enabled {
            let i = rows.index_of(m);
            rows.lemma_filter_contains(is_enabled(), i);
        }
    }
}

/// After a reordering by a list that names no channel twice, the channels that the list names are
/// sent in the order of the list.
pub proof fn law_reordered_channels_are_sent_in_order(
    rows: Seq<ChannelMappingView>,
    list: Seq<ChannelMappingView>,
    i: int,
    j: int,
    a: int,
    b: int,
)
    requires
        channels_differ(rows),
        channels_differ(list),
        list.len() <= 255,
        0 <= i < j < active_mappings(reordered(rows, list)).len(),
        0 <= a < list.len(),
        0 <= b < list.len(),
        active_mappings(reordered(rows, list))[i].physical_channel == list[a].physical_channel,
        active_mappings(reordered(rows, list))[j].physical_channel == list[b].physical_channel,
    ensures
        a < b,
{
    let now = reordered(rows, list);
    let sent = active_mappings(now);
    assert forall|x: int, y: int| 0 <= x < y < now.len() implies (#[trigger] now[x]).physical_channel
        != (#[trigger] now[y]).physical_channel by {
        assert(rows[x].physical_channel != rows[y].physical_channel);
    }
    law_active_mappings(now);
    assert(sent.contains(sent[i]));
    assert(sent.contains(sent[j]));
    let x = now.index_of(sent[i]);
    let y = now.index_of(sent[j]);
    lemma_place_in(list, rows[x].physical_channel, rows[x].order_index);
    lemma_place_in(list, rows[y].physical_channel, rows[y].order_index);
    assert(list[a].physical_channel == rows[x].physical_channel);
    assert(list[b].physical_channel == rows[y].physical_channel);
    assert(sent[i].order_index == a + 1);
    assert(sent[j].order_index == b + 1);
}

/// The last place at which a list names a channel is the channel's place, and a channel that it does
/// not name keeps its own.
pub proof fn lemma_last_place(
    list: Seq<ChannelMappingView>,
    physical_channel: u8,
    otherwise: u8,
    i: int,
)
    requires
        list.len() <= 255,
    ensures
        0 <= i < list.len() && list[i].physical_channel == physical_channel && (forall|j: int|
            i < j < list.len() ==> (#[trigger] list[j]).physical_channel != physical_channel)
            ==> place_in(list, physical_channel, otherwise) == i + 1,
        (forall|j: int|
            0 <= j < list.len() ==> (#[trigger] list[j]).physical_channel != physical_channel)
            ==> place_in(list, physical_channel, otherwise) == otherwise,
    decreases list.len(),
{
    if list.len() > 0 {
        let init = list.drop_last();
        let last = list.len() - 1;
        lemma_last_place(init, physical_channel, otherwise, i);
        if list[last].physical_channel != physical_channel {
            assert forall|j: int| 0 <= j < init.len() implies #[trigger] init[j] == list[j] by {}
        }
    }
}

/// The mapping that is read for a channel is stored, and is that of the channel; where none is read,
/// none is stored.
pub proof fn law_stored_mapping_is_read(
    database: &Database,
    physical_channel: u8,
    r: Option<ChannelMapping>,
    x: ChannelMappingView,
)
    requires
        call_ensures(Database::get_channel_mapping, (database, physical_channel), r),
        database.wf(),
        x.physical_channel == physical_channel,
    ensures
        database@.mappings.contains(x) <==> (r matches Some(m) && m@ == x),
{
    let rows = database@.mappings;
    lemma_first_where(rows, is_for(physical_channel));
    if rows.contains(x) {
        lemma_member_is_found(rows, x);
    }
}

/// A channel is sent as the logical channel of its mapping, if that is enabled, and not at all
/// otherwise; and the channel that is found for a logical one is sent as it.
pub proof fn law_channels_are_converted(
    database: &Database,
    channel: u8,
    logical: Option<u8>,
    physical: Option<u8>,
    x: ChannelMappingView,
)
    requires
        call_ensures(Database::get_logical_channel, (database, channel), logical),
        call_ensures(Database::get_physical_channel, (database, channel), physical),
        database.wf(),
        database@.mappings.contains(x),
    ensures
        x.physical_channel == channel ==> logical == if x.enabled {
            Some(x.logical_channel)
        } else {
            None
        },
        x.logical_channel == channel && x.enabled ==> physical is Some,
        logical matches Some(l) ==> exists|m: ChannelMappingView| #[trigger]
            database@.mappings.contains(m) && m.physical_channel == channel && m.enabled
                && m.logical_channel == l,
        physical matches Some(p) ==> exists|m: ChannelMappingView| #[trigger]
            database@.mappings.contains(m) && m.physical_channel == p && m.enabled
                && m.logical_channel == channel,
{
    let rows = database@.mappings;
    lemma_first_where(rows, is_for(channel));
    lemma_first_where(rows, is_sent_as(channel));
    if x.physical_channel == channel {
        lemma_member_is_found(rows, x);
    }
    let at = rows.index_of(x);
    assert(rows[at] == x);
    match first_where(rows, is_sent_as(channel)) {
        Some(m) => {},
        None => {
            assert(!is_sent_as(channel)(rows[at]));
        },
    }
}

/// The mappings that are sent are those that are stored and enabled, by rising place in the order, and
/// none of them twice.
pub proof fn law_enabled_mappings_are_sent(
    database: &Database,
    r: Vec<ChannelMapping>,
    again: Vec<ChannelMapping>,
    x: ChannelMappingView,
    i: int,
    j: int,
)
    requires
        call_ensures(Database::get_active_channel_mappings, (database,), r),
        call_ensures(Database::get_channel_mappings, (database,), again),
        database.wf(),
    ensures
        views(r@).contains(x) <==> database@.mappings.contains(x) && x.enabled,
        0 <= i < j < r@.len() ==> r@[i].order_index <= r@[j].order_index && r@[i].physical_channel
            != r@[j].physical_channel,
        views(again@) == views(r@),
{
    let rows = database@.mappings;
    law_active_mappings(rows);
    assert(active_mappings(rows).contains(x) == (rows.contains(x) && x.enabled));
    assert(views(r@).len() == r@.len());
    if 0 <= i < j < r@.len() {
        assert(views(r@)[i] == r@[i]@ && views(r@)[j] == r@[j]@);
        assert(ChannelMapping::rank(views(r@)[i]) <= ChannelMapping::rank(views(r@)[j]));
    }
}

/// A list is put in force by writing it, mapping by mapping, and read again in its order: after a
/// reordering, of two channels that are sent and that the list names, each once, the one that it names
/// first is sent first.
pub proof fn law_channels_are_sent_in_the_order_of_the_list(
    database: &mut Database,
    list: &Vec<ChannelMapping>,
    after: &Database,
    sent: Vec<ChannelMapping>,
    i: int,
    j: int,
    a: int,
    b: int,
)
    requires
        old(database).wf(),
        list@.len() <= 255,
        forall|x: int, y: int|
            0 <= x < y < list@.len() ==> (#[trigger] list@[x]).physical_channel != (
            #[trigger] list@[y]).physical_channel,
        call_ensures(Database::reorder_channel_mappings, (database, list), ()),
        *after == *final(database),
        call_ensures(Database::get_active_channel_mappings, (after,), sent),
        0 <= i < j < sent@.len(),
        0 <= a < list@.len(),
        0 <= b < list@.len(),
        sent@[i].physical_channel == list@[a].physical_channel,
        sent@[j].physical_channel == list@[b].physical_channel,
    ensures
        a < b,
{
    let v = views(list@);
    assert(channels_differ(v)) by {
        assert forall|x: int, y: int| 0 <= x < y < v.len() implies (
        #[trigger] v[x]).physical_channel != (#[trigger] v[y]).physical_channel by {
            assert(list@[x].physical_channel != list@[y].physical_channel);
        }
    }
    assert(views(sent@).len() == sent@.len());
    assert(views(sent@)[i] == sent@[i]@ && views(sent@)[j] == sent@[j]@);
    law_reordered_channels_are_sent_in_order(old(database)@.mappings, v, i, j, a, b);
}

/// The rate and the compression that were put in force are those that are read, with the thresholds
/// as they were; nothing but the audio settings changes.
pub proof fn law_written_audio_settings_are_read(
    database: &mut Database,
    sample_rate: u32,
    compression: &str,
    before: &Database,
    after: &Database,
    read: (u32, String),
    old_thresholds: (u32, u32),
    new_thresholds: (u32, u32),
)
    requires
        old(database).wf(),
        next_audio_id(old(database)@.audio) <= i64::MAX,
        call_ensures(Database::update_audio_config, (database, sample_rate, compression), ()),
        *before == *old(database),
        *after == *final(database),
        call_ensures(Database::get_audio_config, (after,), read),
        call_ensures(Database::get_jitter_thresholds, (before,), old_thresholds),
        call_ensures(Database::get_jitter_thresholds, (after,), new_thresholds),
    ensures
        read.0 == sample_rate,
        read.1@ == compression@,
        new_thresholds == old_thresholds,
        final(database)@ == (TablesView { audio: final(database)@.audio, ..old(database)@ }),
{
    law_audio_config_reads_back(old(database)@.audio, sample_rate, compression@);
}

/// The thresholds that were put in force are those that are read, where any audio settings are in
/// force, with the rate and the compression as they were; nothing but the audio settings changes.
pub proof fn law_written_thresholds_are_read(
    database: &mut Database,
    interpolate: u32,
    drop: u32,
    before: &Database,
    after: &Database,
    old_audio: (u32, String),
    new_audio: (u32, String),
    read: (u32, u32),
)
    requires
        old(database).wf(),
        call_ensures(Database::update_jitter_thresholds, (database, interpolate, drop), ()),
        *before == *old(database),
        *after == *final(database),
        call_ensures(Database::get_audio_config, (before,), old_audio),
        call_ensures(Database::get_audio_config, (after,), new_audio),
        call_ensures(Database::get_jitter_thresholds, (after,), read),
    ensures
        (exists|i: int| 0 <= i < old(database)@.audio.len() && (#[trigger] old(
            database)@.audio[i]).active) ==> read == (interpolate, drop),
        (forall|i: int| 0 <= i < old(database)@.audio.len() ==> !(#[trigger] old(
            database)@.audio[i]).active) ==> read == (100u32, 200u32) && new_audio.0 == 48000
            && new_audio.1@ == "none"@,
        new_audio.0 == old_audio.0 && new_audio.1@ == old_audio.1@,
        final(database)@ == (TablesView { audio: final(database)@.audio, ..old(database)@ }),
{
    let rows = old(database)@.audio;
    law_jitter_thresholds_read_back(rows, interpolate, drop);
    lemma_first_where(rows, is_active());
    match first_where(rows, is_active()) {
        Some(r) => {
            let i = rows.index_of(r);
            assert(rows[i].active);
        },
        None => {
            assert forall|i: int| 0 <= i < rows.len() implies !(#[trigger] rows[i]).active by {
                assert(!is_active()(rows[i]));
            }
        },
    }
}

/// What is stored for a client is what is read for it, all of it, and what is stored for others stays;
/// nothing but the requests of clients changes.
pub proof fn law_written_request_is_read(
    database: &mut Database,
    ip: &str,
    port: u16,
    config: &ClientConfig,
    other_ip: &str,
    other_port: u16,
    before: &Database,
    after: &Database,
    own: Option<ClientConfig>,
    old_other: Option<ClientConfig>,
    new_other: Option<ClientConfig>,
)
    requires
        old(database).wf(),
        call_ensures(Database::save_client_config, (database, ip, port, config), ()),
        *before == *old(database),
        *after == *final(database),
        call_ensures(Database::get_client_config, (after, ip, port), own),
        other_ip@ != ip@ || other_port != port,
        call_ensures(Database::get_client_config, (before, other_ip, other_port), old_other),
        call_ensures(Database::get_client_config, (after, other_ip, other_port), new_other),
    ensures
        own matches Some(c) && c@ == config@,
        old_other is Some <==> new_other is Some,
        old_other matches Some(a) ==> (new_other matches Some(b) && b@ == a@),
        final(database)@ == (TablesView { clients: final(database)@.clients, ..old(database)@ }),
{
    law_client_config_reads_back(
        old(database)@.clients,
        ip@,
        port,
        config@,
        other_ip@,
        other_port,
    );
}

/// The row of a client holds the rate and the compression that it asked for, or 48000 and `none` where
/// it left them out, beside the whole request.
pub proof fn law_request_is_stored_with_defaults(
    database: &mut Database,
    ip: &str,
    port: u16,
    config: &ClientConfig,
)
    requires
        old(database).wf(),
        call_ensures(Database::save_client_config, (database, ip, port, config), ()),
    ensures
        ({
            let row = final(database)@.clients.last();
            &&& final(database)@.clients.len() > 0
            &&& row.client_ip == ip@
            &&& row.client_port == port
            &&& row.config == config@
            &&& row.sample_rate == match config.sample_rate {
                Some(rate) => rate,
                None => 48000,
            }
            &&& config.compression matches Some(c) ==> row.compression == c@
            &&& config.compression is None ==> row.compression == "none"@
        }),
{
}

/// What a client measured is stored as it was told, behind what was stored before.
pub proof fn law_measures_are_stored(
    database: &mut Database,
    ip: &str,
    port: u16,
    packets_received: u32,
    packets_expected: u32,
    packet_loss_rate: u64,
    jitter_ms: u64,
    latency_ms: u64,
    bandwidth_mbps: u64,
)
    requires
        old(database).wf(),
        call_ensures(
            Database::save_qos_metrics,
            (
                database,
                ip,
                port,
                packets_received,
                packets_expected,
                packet_loss_rate,
                jitter_ms,
                latency_ms,
                bandwidth_mbps,
            ),
            (),
        ),
    ensures
        ({
            let row = final(database)@.qos.last();
            &&& final(database)@.qos.len() == old(database)@.qos.len() + 1
            &&& final(database)@.qos.drop_last() == old(database)@.qos
            &&& row.client_ip == ip@
            &&& row.client_port == port
            &&& row.packets_received == packets_received
            &&& row.packets_expected == packets_expected
            &&& row.packet_loss_rate == packet_loss_rate
            &&& row.jitter_ms == jitter_ms
            &&& row.latency_ms == latency_ms
            &&& row.bandwidth_mbps == bandwidth_mbps
        }),
        final(database)@ == (TablesView { qos: final(database)@.qos, ..old(database)@ }),
{
    assert(final(database)@.qos.drop_last() =~= old(database)@.qos);
}

/// A change is noted as it was told, behind what was noted before.
pub proof fn law_changes_are_noted(
    database: &mut Database,
    change_type: &str,
    reason: &str,
    details: &str,
)
    requires
        old(database).wf(),
        call_ensures(Database::log_config_change, (database, change_type, reason, details), ()),
    ensures
        ({
            let row = final(database)@.changes.last();
            &&& final(database)@.changes.len() == old(database)@.changes.len() + 1
            &&& final(database)@.changes.drop_last() == old(database)@.changes
            &&& row.change_type == change_type@
            &&& row.reason == reason@
            &&& row.details == details@
        }),
        final(database)@ == (TablesView { changes: final(database)@.changes, ..old(database)@ }),
{
    assert(final(database)@.changes.drop_last() =~= old(database)@.changes);
}

/// Of a channel that is renamed and shown or hidden exactly that changes; other channels stay, and so
/// does all else that is stored.
pub proof fn law_renamed_channel_is_stored(
    database: &mut Database,
    channel_id: u8,
    name: &str,
    enabled: bool,
    k: int,
)
    requires
        old(database).wf(),
        call_ensures(Database::update_channel_config, (database, channel_id, name, enabled), ()),
        0 <= k < old(database)@.channels.len(),
    ensures
        final(database)@.channels.len() == old(database)@.channels.len(),
        ({
            let a = old(database)@.channels[k];
            let b = final(database)@.channels[k];
            &&& a.channel_id == channel_id ==> b.name == name@ && b.enabled == enabled
            &&& a.channel_id != channel_id ==> b.name == a.name && b.enabled == a.enabled
            &&& b.channel_id == a.channel_id
            &&& b.order_index == a.order_index
        }),
        final(database)@ == (TablesView {
            channels: final(database)@.channels,
            ..old(database)@
        }),
{
}

/// Clients are shown the channels that are enabled, under their names, by rising place in the order,
/// and no others.
pub proof fn law_enabled_channels_are_shown(
    database: &Database,
    r: Vec<ChannelConfig>,
    settings: Settings,
    c: ChannelConfigView,
)
    requires
        call_ensures(Database::get_channel_configs, (database,), r),
        call_ensures(Database::get_settings, (database,), settings),
    ensures
        views(r@).contains(c) <==> exists|row: ChannelRowView| #[trigger]
            database@.channels.contains(row) && row.enabled && row.channel_id == c.id && row.name
                == c.name,
        exists|order: Seq<ChannelRowView>|
            {
                &&& #[trigger] order.len() == r@.len()
                &&& forall|i: int|
                    0 <= i < r@.len() ==> (#[trigger] order[i]).channel_id == r@[i].id
                        && order[i].name == r@[i].name@ && order[i].enabled
                        && database@.channels.contains(order[i])
                &&& forall|i: int, j: int|
                    0 <= i <= j < order.len() ==> (#[trigger] order[i]).order_index <= (
                    #[trigger] order[j]).order_index
            },
        r@.len() == database@.channels.filter(|row: ChannelRowView| row.enabled).len(),
        settings@.channels == views(r@),
{
    let rows = database@.channels;
    let kept = rows.filter(is_listed());
    law_in_order::<ChannelRow>(kept);
    let order = in_order::<ChannelRow>(kept);
    assert(is_listed() =~= |row: ChannelRowView| row.enabled);
    assert(views(r@).len() == r@.len());
    assert forall|i: int| 0 <= i < r@.len() implies (#[trigger] order[i]).channel_id == r@[i].id
        && order[i].name == r@[i].name@ && order[i].enabled && rows.contains(order[i]) by {
        assert(views(r@)[i] == r@[i]@);
        assert(order.contains(order[i]));
        let k = kept.index_of(order[i]);
        lemma_filter_member(rows, is_listed(), k);
    }
    assert forall|i: int, j: int| 0 <= i <= j < order.len() implies (
    #[trigger] order[i]).order_index <= (#[trigger] order[j]).order_index by {
        assert(ChannelRow::rank(order[i]) <= ChannelRow::rank(order[j]));
    }
    assert(order.len() == r@.len());
    if views(r@).contains(c) {
        let i = views(r@).index_of(c);
        assert(order[i].channel_id == c.id);
        assert(rows.contains(order[i]));
    }
    if exists|row: ChannelRowView| #[trigger]
        rows.contains(row) && row.enabled && row.channel_id == c.id && row.name == c.name {
        let row = choose|row: ChannelRowView| #[trigger]
            rows.contains(row) && row.enabled && row.channel_id == c.id && row.name == c.name;
        let k = rows.index_of(row);
        rows.lemma_filter_contains(is_listed(), k);
        assert(order.contains(row));
        let i = order.index_of(row);
        assert(views(r@)[i] =~= c);
    }
}

/// The settings that are read are the audio settings in force and the channels that are shown.
pub proof fn law_settings_are_put_together(
    database: &Database,
    audio: (u32, String),
    channels: Vec<ChannelConfig>,
    r: Settings,
)
    requires
        call_ensures(Database::get_audio_config, (database,), audio),
        call_ensures(Database::get_channel_configs, (database,), channels),
        call_ensures(Database::get_settings, (database,), r),
    ensures
        r.sample_rate == audio.0,
        r.compression@ == audio.1@,
        views(r.channels@) == views(channels@),
{
    assert(r@.channels == views(r.channels@));
}

/// The audio settings in force are those of an active row; without one they are 48000 and `none`, with
/// the thresholds 100 and 200.
pub proof fn law_active_audio_settings_are_in_force(
    database: &Database,
    audio: (u32, String),
    thresholds: (u32, u32),
)
    requires
        call_ensures(Database::get_audio_config, (database,), audio),
        call_ensures(Database::get_jitter_thresholds, (database,), thresholds),
    ensures
        (exists|i: int| 0 <= i < database@.audio.len() && (#[trigger] database@.audio[i]).active)
            ==> exists|i: int|
            {
                &&& 0 <= i < database@.audio.len()
                &&& (#[trigger] database@.audio[i]).active
                &&& audio.0 == database@.audio[i].sample_rate
                &&& audio.1@ == database@.audio[i].compression
                &&& thresholds.0 == database@.audio[i].jitter_interpolate
                &&& thresholds.1 == database@.audio[i].jitter_drop
            },
        (forall|i: int|
            0 <= i < database@.audio.len() ==> !(#[trigger] database@.audio[i]).active)
            ==> audio.0 == 48000 && audio.1@ == "none"@ && thresholds == (100u32, 200u32),
{
    let rows = database@.audio;
    lemma_first_where(rows, is_active());
    match first_where(rows, is_active()) {
        Some(r) => {
            let i = rows.index_of(r);
            assert(rows[i].active);
        },
        None => {
            assert forall|i: int| 0 <= i < rows.len() implies !(#[trigger] rows[i]).active by {
                assert(!is_active()(rows[i]));
            }
        },
    }
}

/// Stored rows are taken up exactly if no two mappings are for one channel, no two requests are of one
/// client and the numbers of the audio settings rise; and they are handed out as they were taken up.
pub proof fn law_consistent_rows_are_taken_up(
    tables: Tables,
    r: Result<Database, Inconsistency>,
    database: Database,
    out: Tables,
)
    requires
        call_ensures(Database::load, (tables,), r),
        r matches Ok(d) ==> d == database,
        call_ensures(Database::into_tables, (database,), out),
    ensures
        r is Ok <==> {
            &&& forall|i: int, j: int|
                0 <= i < j < tables@.audio.len() ==> (#[trigger] tables@.audio[i]).id < (
                #[trigger] tables@.audio[j]).id
            &&& forall|i: int, j: int|
                0 <= i < j < tables@.mappings.len() ==> (
                #[trigger] tables@.mappings[i]).physical_channel != (
                #[trigger] tables@.mappings[j]).physical_channel
            &&& forall|i: int, j: int|
                0 <= i < j < tables@.clients.len() ==> (#[trigger] tables@.clients[i]).client_ip
                    != (#[trigger] tables@.clients[j]).client_ip || tables@.clients[i].client_port
                    != tables@.clients[j].client_port
        },
        r is Ok ==> out@ == tables@,
{
}

/// A server that starts for the first time has the channels 1 to 32, each shown, and sent as itself,
/// under its default name and at its own place; and its audio settings are 48000 and `none`, with the
/// thresholds 100 and 200. Nothing else is stored.
pub proof fn law_new_server(
    tables: Tables,
    r: Result<Database, Inconsistency>,
    database: &Database,
    n: u8,
    mapping: Option<ChannelMapping>,
    audio: (u32, String),
    thresholds: (u32, u32),
)
    requires
        tables@.audio.len() == 0,
        tables@.channels.len() == 0,
        tables@.mappings.len() == 0,
        clients_differ(tables@.clients),
        call_ensures(Database::new, (tables,), r),
        r matches Ok(d) ==> d == *database,
        call_ensures(Database::get_channel_mapping, (database, n), mapping),
        call_ensures(Database::get_audio_config, (database,), audio),
        call_ensures(Database::get_jitter_thresholds, (database,), thresholds),
    ensures
        r is Ok,
        mapping is Some <==> 1 <= n <= 32,
        mapping matches Some(m) ==> {
            &&& m.physical_channel == n
            &&& m.logical_channel == n
            &&& m.enabled
            &&& m.order_index == n
            &&& m.name@ == default_name(n as nat)
        },
        (exists|row: ChannelRowView| #[trigger]
            database@.channels.contains(row) && row.channel_id == n) <==> 1 <= n <= 32,
        forall|row: ChannelRowView| #[trigger]
            database@.channels.contains(row) && row.channel_id == n ==> row.enabled
                && row.order_index == n && row.name == default_name(n as nat),
        audio.0 == 48000,
        audio.1@ == "none"@,
        thresholds == (100u32, 200u32),
        database@.clients == tables@.clients,
        database@.qos == tables@.qos,
        database@.changes == tables@.changes,
{
    assert(mapping_of(tables@.mappings, n) is None);
    assert(channel_of(tables@.channels, n) is None);
    law_seeding_mappings(tables@.mappings, n);
    law_seeding_channels(tables@.channels, n);
    assert(first_where(tables@.audio, has_id(1)) is None);
    let rows = database@.audio;
    assert(rows =~= seq![crate::database::first_audio_row()]);
    lemma_first_where_only(rows, is_active(), 0);
    let shown = database@.channels;
    lemma_first_where(shown, is_channel(n));
    assert forall|row: ChannelRowView| #[trigger]
        shown.contains(row) && row.channel_id == n implies channel_of(shown, n) == Some(row) by {
        let at = shown.index_of(row);
        assert(listed_once(shown));
        assert forall|i: int| 0 <= i < shown.len() && is_channel(n)(#[trigger] shown[i]) implies i
            == at by {
            if i < at {
                assert(shown[i].channel_id != shown[at].channel_id);
            }
            if at < i {
                assert(shown[at].channel_id != shown[i].channel_id);
            }
        }
        lemma_first_where_only(shown, is_channel(n), at);
    }
}

/// Starting a server again changes no mapping, no channel and no audio settings that are there.
pub proof fn law_restart_keeps_what_is_there(
    database: &mut Database,
    mapping: ChannelMappingView,
    row: AudioRowView,
)
    requires
        old(database).wf(),
        call_ensures(Database::init_tables, (database,), ()),
    ensures
        old(database)@.mappings.contains(mapping) ==> final(database)@.mappings.contains(mapping),
        old(database)@.audio.contains(row) ==> final(database)@.audio.contains(row),
        final(database)@.mappings.contains(mapping) && !old(database)@.mappings.contains(mapping)
            ==> mapping_of(old(database)@.mappings, mapping.physical_channel) is None,
        final(database)@.clients == old(database)@.clients,
        final(database)@.qos == old(database)@.qos,
        final(database)@.changes == old(database)@.changes,
        final(database)@.mappings.take(old(database)@.mappings.len() as int)
            == old(database)@.mappings,
        final(database)@.channels.take(old(database)@.channels.len() as int)
            == old(database)@.channels,
{
    let before = old(database)@;
    let after = final(database)@;
    law_seeding_mappings(before.mappings, mapping.physical_channel);
    lemma_seeding_appends(before.mappings, USB_CHANNELS);
    lemma_channel_seeding_appends(before.channels, USB_CHANNELS);
    if before.mappings.contains(mapping) {
        let i = before.mappings.index_of(mapping);
        assert(after.mappings.take(before.mappings.len() as int)[i] == after.mappings[i]);
    }
    if after.mappings.contains(mapping) && !before.mappings.contains(mapping) {
        lemma_member_is_found(after.mappings, mapping);
        lemma_first_where(before.mappings, is_for(mapping.physical_channel));
    }
    if before.audio.contains(row) && first_where(before.audio, has_id(1)) is None {
        let i = before.audio.index_of(row);
        lemma_first_audio_place(before.audio);
        let at = first_audio_place(before.audio) as int;
        if i < at {
            assert(after.audio[i] == row);
        } else {
            assert(after.audio[i + 1] == row);
        }
    }
}

proof fn lemma_seeding_appends(rows: Seq<ChannelMappingView>, n: u8)
    ensures
        seeded_mappings(rows, n).len() >= rows.len(),
        seeded_mappings(rows, n).take(rows.len() as int) == rows,
    decreases n,
{
    if n > 0 {
        lemma_seeding_appends(rows, (n - 1) as u8);
        let before = seeded_mappings(rows, (n - 1) as u8);
        assert(before.push(default_mapping(n)).take(rows.len() as int) =~= before.take(
            rows.len() as int,
        ));
    } else {
        assert(rows.take(rows.len() as int) =~= rows);
    }
}

proof fn lemma_channel_seeding_appends(rows: Seq<ChannelRowView>, n: u8)
    ensures
        seeded_channels(rows, n).len() >= rows.len(),
        seeded_channels(rows, n).take(rows.len() as int) == rows,
    decreases n,
{
    if n > 0 {
        lemma_channel_seeding_appends(rows, (n - 1) as u8);
        let before = seeded_channels(rows, (n - 1) as u8);
        assert(before.push(default_channel_row(n)).take(rows.len() as int) =~= before.take(
            rows.len() as int,
        ));
    } else {
        assert(rows.take(rows.len() as int) =~= rows);
    }
}

} // verus!
