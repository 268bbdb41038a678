//! Tests for the text helpers: time and player-list formatting, status
//! messages, display names and the statistics/weather presentation.

use add_bot::settings::{steamid_for_username, PlayersSettings};
use add_bot::state::{AddRemovePlayerOp, Queue, QUEUE_SIZE};
use add_bot::stats::{
    index_to_pos, matches_cs_map_name, skill_level_to_cs2_rank, stat_type_display_name,
    MatchResult,
};
use add_bot::types::{QueueId, QueueTime, SteamID, Username};
use add_bot::util::{fmt_naive_time, fmt_u64, mk_players_str, mk_queue_status_msg, mk_username};
use add_bot::weather::{fmt_symbol, friendly_weather_error_message, symbol_description};

fn u(s: &str) -> Username {
    Username::new(s.to_string())
}

fn t(h: u8, m: u8) -> QueueTime {
    QueueTime::new(h, m)
}

fn queue_of(names: &[&str], time: QueueTime, cmd: &str) -> Queue {
    let mut q = Queue::new(time, cmd.to_string());
    for n in names {
        q.insert_player(u(n));
    }
    q
}

#[test]
fn fmt_naive_time_zero_pads() {
    assert_eq!(fmt_naive_time(&t(9, 5)), "09:05");
    assert_eq!(fmt_naive_time(&t(23, 59)), "23:59");
    assert_eq!(fmt_naive_time(&t(0, 0)), "00:00");
}

#[test]
fn fmt_u64_plain_decimal() {
    assert_eq!(fmt_u64(0), "0");
    assert_eq!(fmt_u64(7), "7");
    assert_eq!(fmt_u64(1234), "1234");
    assert_eq!(fmt_u64(u64::MAX), "18446744073709551615");
}

#[test]
fn players_str_lists_players_and_count() {
    let q = queue_of(&["alice", "bob"], t(19, 30), "/1930");
    assert_eq!(mk_players_str(&q, false, false), "Players: 2/5 (alice, bob)");
}

#[test]
fn players_str_empty_queue_reads_no_players() {
    let q = queue_of(&[], t(19, 30), "/1930");
    assert_eq!(mk_players_str(&q, false, false), "Players: 0/5 (no players)");
}

#[test]
fn players_str_highlight_and_short() {
    let q = queue_of(&["alice", "bob"], t(19, 30), "/1930");
    assert_eq!(mk_players_str(&q, true, true), "2/5 (@alice, @bob)");
}

#[test]
fn players_str_splits_off_the_reserve() {
    let q = queue_of(&["p1", "p2", "p3", "p4", "p5", "p6", "p7"], t(21, 0), "/2100");
    assert_eq!(
        mk_players_str(&q, false, false),
        "Players: 7/5 (p1, p2, p3, p4, p5, Reserve: p6, p7)"
    );
}

#[test]
fn status_msg_spells_out_the_toggle() {
    let q = queue_of(&["alice"], t(19, 30), "/1930");
    let id = QueueId::new("1930".to_string());
    let op = AddRemovePlayerOp::PlayerAdded(u("alice"));
    assert_eq!(
        mk_queue_status_msg(&q, &id, &op),
        "1930 queue: Added alice.\nPlayers: 1/5 (alice).\nUse /1930 to add/remove yourself from the queue!"
    );
}

#[test]
fn status_msg_names_the_instant_queue() {
    let q = queue_of(&[], t(0, 0), "/add");
    let id = QueueId::new("".to_string());
    let op = AddRemovePlayerOp::PlayerRemoved(u("bob"));
    assert_eq!(
        mk_queue_status_msg(&q, &id, &op),
        "Instant queue: Removed bob.\nPlayers: 0/5 (no players).\nUse /add to add/remove yourself from the queue!"
    );
}

#[test]
fn queue_id_display_and_instant_flag() {
    let instant = QueueId::new("".to_string());
    assert!(instant.is_instant_queue());
    assert_eq!(instant.display_name(), "Instant");
    let timed = QueueId::new("1930".to_string());
    assert!(!timed.is_instant_queue());
    assert_eq!(timed.display_name(), "1930");
}

#[test]
fn mk_username_prefers_username_then_full_name() {
    let from_handle = mk_username(
        Some("handle".to_string()),
        "First".to_string(),
        Some("Last".to_string()),
    );
    assert_eq!(from_handle.name(), "handle");
    let from_full = mk_username(None, "First".to_string(), Some("Last".to_string()));
    assert_eq!(from_full.name(), "First Last");
    let from_first = mk_username(None, "First".to_string(), None);
    assert_eq!(from_first.name(), "First");
}

#[test]
fn queue_capacity_helpers() {
    let mut q = queue_of(&["p1", "p2", "p3", "p4"], t(12, 0), "/add");
    assert!(!q.is_full());
    q.insert_player(u("p5"));
    assert!(q.is_full());
    assert_eq!(q.num_players(), QUEUE_SIZE);
    // Inserting a present player changes nothing.
    q.insert_player(u("p5"));
    assert_eq!(q.num_players(), QUEUE_SIZE);
    q.remove_player(&u("p3"));
    assert_eq!(q.num_players(), 4);
    assert!(!q.has_player(&u("p3")));
    let (main, reserve) = q.get_players();
    assert_eq!(main, vec![u("p1"), u("p2"), u("p4"), u("p5")]);
    assert!(reserve.is_none());
}

#[test]
fn index_to_pos_medals_then_numbers() {
    assert_eq!(index_to_pos(0), "🥇");
    assert_eq!(index_to_pos(1), "🥈");
    assert_eq!(index_to_pos(2), "🥉");
    assert_eq!(index_to_pos(3), "#4");
    assert_eq!(index_to_pos(9), "#10");
}

#[test]
fn skill_levels_format_with_tier_names() {
    assert_eq!(skill_level_to_cs2_rank(0), "0, Unranked");
    assert_eq!(skill_level_to_cs2_rank(5), "5, Silver Elite");
    assert_eq!(skill_level_to_cs2_rank(18), "18, Global Elite");
    assert_eq!(skill_level_to_cs2_rank(19), "19, Unranked");
    assert_eq!(skill_level_to_cs2_rank(15340), "15340");
}

#[test]
fn stat_names_have_headings() {
    assert_eq!(stat_type_display_name("aim"), "Aim");
    assert_eq!(stat_type_display_name("leetify"), "Leetify Rating");
    assert_eq!(stat_type_display_name("mystery"), "mystery");
}

#[test]
fn map_names_are_recognised() {
    assert!(matches_cs_map_name("de_dust2"));
    assert!(matches_cs_map_name("cs_office"));
    assert!(!matches_cs_map_name("dust2"));
}

#[test]
fn match_results_abbreviate() {
    assert_eq!(MatchResult::Win.letter(), "W");
    assert_eq!(MatchResult::Loss.letter(), "L");
    assert_eq!(MatchResult::Tie.letter(), "T");
}

#[test]
fn symbol_descriptions_drop_day_and_night() {
    assert_eq!(symbol_description("clearsky_day"), "clear sky");
    assert_eq!(symbol_description("heavyrainshowers_night"), "heavy rain showers");
    assert_eq!(symbol_description("fog_polartwilight"), "fog");
    assert_eq!(symbol_description("sleet"), "sleet");
    // An unknown code reads as itself with underscores spaced out.
    assert_eq!(symbol_description("volcanic_ash_day"), "volcanic ash");
}

#[test]
fn fmt_symbol_falls_back_to_na() {
    assert_eq!(fmt_symbol(&None), "N/A");
    assert_eq!(fmt_symbol(&Some("snow_day".to_string())), "snow");
}

#[test]
fn weather_errors_point_at_configuration() {
    // Mixed case exercises the lowercasing before matching.
    assert_eq!(
        friendly_weather_error_message("Weather Not Configured", "fallback"),
        "Weather is not configured. Ask an admin to set the [weather] section with latitude, longitude, and display_name in Settings.toml"
    );
    assert_eq!(
        friendly_weather_error_message("could not read Settings.toml", "fallback"),
        "Weather is not configured. Ask an admin to set the [weather] section with latitude, longitude, and display_name in Settings.toml"
    );
    assert_eq!(
        friendly_weather_error_message("network unreachable", "Failed to fetch weather"),
        "Failed to fetch weather"
    );
}

#[test]
fn steamid_lookup_finds_configured_players() {
    let settings = PlayersSettings {
        steamid_mappings: vec![
            (u("alice"), SteamID::new("76561197960287930".to_string())),
            (u("bob"), SteamID::new("76561197960287931".to_string())),
        ],
    };
    let id = steamid_for_username(&settings, &u("bob")).expect("bob is configured");
    assert_eq!(id.text(), "76561197960287931");
    assert!(steamid_for_username(&settings, &u("mallory")).is_none());
}

#[test]
fn op_descriptions() {
    assert_eq!(AddRemovePlayerOp::PlayerAdded(u("x")).describe(), "Added x");
    assert_eq!(AddRemovePlayerOp::PlayerRemoved(u("y")).describe(), "Removed y");
}
