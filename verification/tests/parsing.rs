use majsoul_history::game_type::{GameCategory, GameRule, GameType};
use majsoul_history::parser::{parse_match, parse_match_data, RawMatchRecord, RawPlayerRecord};
use majsoul_history::UpstreamViolation;

fn player(account_id: u64, nickname: &str, score: i64, grading_score: i64) -> RawPlayerRecord {
    RawPlayerRecord { account_id, nickname: nickname.to_string(), score, grading_score }
}

fn record(players: Vec<RawPlayerRecord>, start_time: u64, end_time: u64, mode_id: u64) -> RawMatchRecord {
    RawMatchRecord { players, start_time, end_time, mode_id }
}

#[test]
fn parse_ranks_by_grading_score_descending() {
    let rec = record(
        vec![
            player(1, "A", 25000, 3),
            player(2, "B", 40000, 10),
            player(42, "C", 10000, -5),
            player(4, "D", 30000, 7),
        ],
        1700000000,
        1700002400,
        16,
    );
    let m = parse_match(&rec, 42).unwrap();
    assert_eq!(m.player_rank, 4);
    assert_eq!(m.pt_change, -5);
    let names: Vec<&str> = m.player_results.iter().map(|p| p.name.as_str()).collect();
    assert_eq!(names, ["B", "D", "A", "C"]);
    let scores: Vec<i64> = m.player_results.iter().map(|p| p.final_score).collect();
    assert_eq!(scores, [40000, 30000, 25000, 10000]);
}

#[test]
fn parse_keeps_upstream_order_on_ties() {
    let rec = record(
        vec![player(1, "A", 100, 5), player(2, "B", 200, 5), player(42, "C", 300, 5)],
        1700000000,
        1700000600,
        21,
    );
    let m = parse_match(&rec, 42).unwrap();
    assert_eq!(m.player_rank, 3);
    let names: Vec<&str> = m.player_results.iter().map(|p| p.name.as_str()).collect();
    assert_eq!(names, ["A", "B", "C"]);
}

#[test]
fn parse_duration_forty_minutes() {
    let rec = record(
        vec![player(42, "A", 0, 1), player(2, "B", 0, -1)],
        1000000,
        1002400,
        16,
    );
    let m = parse_match(&rec, 42).unwrap();
    assert_eq!(m.duration_minutes, 40);
}

#[test]
fn parse_duration_floors_partial_minutes() {
    let rec = record(
        vec![player(42, "A", 0, 1), player(2, "B", 0, -1)],
        1700000000,
        1700000119,
        16,
    );
    let m = parse_match(&rec, 42).unwrap();
    assert_eq!(m.duration_minutes, 1);
}

#[test]
fn parse_duration_end_before_start_is_zero() {
    let rec = record(
        vec![player(42, "A", 0, 1), player(2, "B", 0, -1)],
        1700000600,
        1700000000,
        16,
    );
    let m = parse_match(&rec, 42).unwrap();
    assert_eq!(m.duration_minutes, 0);
}

#[test]
fn parse_sets_start_time_and_game_type() {
    let rec = record(
        vec![player(42, "A", 0, 2), player(2, "B", 0, -2)],
        1712345678,
        1712349999,
        25,
    );
    let m = parse_match(&rec, 42).unwrap();
    assert_eq!(m.start_time, 1712345678);
    assert_eq!(
        m.game_type,
        GameType { rule: GameRule::ThreePlayer, category: GameCategory::ThroneEast }
    );
}

#[test]
fn parse_rejects_unknown_mode_id() {
    let rec = record(
        vec![player(42, "A", 0, 1), player(2, "B", 0, -1)],
        1700000000,
        1700000600,
        17,
    );
    assert!(matches!(parse_match(&rec, 42), Err(UpstreamViolation::UnknownModeId(17))));
}

#[test]
fn parse_rejects_missing_target_player() {
    let rec = record(
        vec![player(1, "A", 0, 1), player(2, "B", 0, -1)],
        1700000000,
        1700000600,
        16,
    );
    assert!(matches!(parse_match(&rec, 42), Err(UpstreamViolation::TargetPlayerMissing)));
}

#[test]
fn parse_reports_missing_player_before_unknown_mode() {
    let rec = record(
        vec![player(1, "A", 0, 1), player(2, "B", 0, -1)],
        1700000000,
        1700000600,
        99,
    );
    assert!(matches!(parse_match(&rec, 42), Err(UpstreamViolation::TargetPlayerMissing)));
}

#[test]
fn parse_page_preserves_match_order() {
    let page = vec![
        record(vec![player(42, "A", 0, 4), player(2, "B", 0, -4)], 1700000900, 1700001500, 16),
        record(vec![player(2, "B", 0, 9), player(42, "A", 0, -9)], 1700000300, 1700000900, 16),
    ];
    let matches = parse_match_data(&page, 42).unwrap();
    assert_eq!(matches.len(), 2);
    assert_eq!(matches[0].start_time, 1700000900);
    assert_eq!(matches[0].player_rank, 1);
    assert_eq!(matches[1].start_time, 1700000300);
    assert_eq!(matches[1].player_rank, 2);
}

#[test]
fn parse_page_fails_on_first_bad_record() {
    let page = vec![
        record(vec![player(42, "A", 0, 4), player(2, "B", 0, -4)], 1700000900, 1700001500, 16),
        record(vec![player(42, "A", 0, 1), player(2, "B", 0, -1)], 1700000300, 1700000900, 18),
        record(vec![player(1, "A", 0, 1), player(2, "B", 0, -1)], 1700000100, 1700000500, 16),
    ];
    assert!(matches!(parse_match_data(&page, 42), Err(UpstreamViolation::UnknownModeId(18))));
}
