use majsoul_history::paginator::{fetch_all, Paginator, SimulatedUpstream};
use majsoul_history::parser::{RawMatchRecord, RawPlayerRecord};
use majsoul_history::{FLOOR_TIMESTAMP, UpstreamViolation};

const TARGET: u64 = 42;

fn two_player_record(start_time: u64, target_grading: i64) -> RawMatchRecord {
    RawMatchRecord {
        players: vec![
            RawPlayerRecord {
                account_id: TARGET,
                nickname: "target".to_string(),
                score: 25000,
                grading_score: target_grading,
            },
            RawPlayerRecord {
                account_id: 7,
                nickname: "other".to_string(),
                score: 25000,
                grading_score: -target_grading,
            },
        ],
        start_time,
        end_time: start_time + 2400,
        mode_id: 16,
    }
}

/// A history of `count` records with distinct start times, newest first.
fn descending_history(count: u64) -> SimulatedUpstream {
    let mut records = Vec::new();
    let mut i: u64 = 0;
    while i < count {
        records.push(two_player_record(FLOOR_TIMESTAMP + count - i, if i % 2 == 0 { 10 } else { -10 }));
        i += 1;
    }
    SimulatedUpstream { records }
}

#[test]
fn end_to_end_two_records() {
    let upstream = SimulatedUpstream {
        records: vec![
            two_player_record(1700000900, 10),
            two_player_record(1700000300, -5),
        ],
    };
    let matches = fetch_all(&upstream, 1800000000, TARGET).unwrap();
    assert_eq!(matches.len(), 2);
    assert_eq!(matches[0].pt_change, 10);
    assert_eq!(matches[0].player_rank, 1);
    assert_eq!(matches[1].pt_change, -5);
    assert_eq!(matches[1].player_rank, 2);
}

#[test]
fn fetch_all_empty_history() {
    let upstream = SimulatedUpstream { records: Vec::new() };
    let matches = fetch_all(&upstream, 1800000000, TARGET).unwrap();
    assert!(matches.is_empty());
}

#[test]
fn fetch_all_exact_page_boundary() {
    let matches = fetch_all(&descending_history(500), 1800000000, TARGET).unwrap();
    assert_eq!(matches.len(), 500);
}

#[test]
fn fetch_all_one_past_page_boundary() {
    let matches = fetch_all(&descending_history(501), 1800000000, TARGET).unwrap();
    assert_eq!(matches.len(), 501);
}

#[test]
fn fetch_all_three_pages_no_duplicates_descending() {
    let matches = fetch_all(&descending_history(1001), 1800000000, TARGET).unwrap();
    assert_eq!(matches.len(), 1001);
    for pair in matches.windows(2) {
        assert!(pair[0].start_time > pair[1].start_time);
    }
    assert_eq!(matches[0].start_time, FLOOR_TIMESTAMP + 1001);
    assert_eq!(matches[1000].start_time, FLOOR_TIMESTAMP + 1);
}

#[test]
fn fetch_all_respects_floor() {
    let upstream = SimulatedUpstream {
        records: vec![
            two_player_record(FLOOR_TIMESTAMP + 5, 10),
            two_player_record(FLOOR_TIMESTAMP, 10),
            two_player_record(FLOOR_TIMESTAMP - 1, 10),
            two_player_record(FLOOR_TIMESTAMP - 100, 10),
        ],
    };
    let matches = fetch_all(&upstream, 1800000000, TARGET).unwrap();
    assert_eq!(matches.len(), 2);
    for m in &matches {
        assert!(m.start_time >= FLOOR_TIMESTAMP);
    }
}

#[test]
fn fetch_all_skips_records_after_initial_cursor() {
    let upstream = SimulatedUpstream {
        records: vec![
            two_player_record(1700000900, 10),
            two_player_record(1700000300, 10),
        ],
    };
    let matches = fetch_all(&upstream, 1700000500, TARGET).unwrap();
    assert_eq!(matches.len(), 1);
    assert_eq!(matches[0].start_time, 1700000300);
}

#[test]
fn fetch_all_propagates_violation() {
    let mut bad = two_player_record(1700000300, 10);
    bad.mode_id = 99;
    let upstream = SimulatedUpstream {
        records: vec![two_player_record(1700000900, 10), bad],
    };
    assert!(matches!(
        fetch_all(&upstream, 1800000000, TARGET),
        Err(UpstreamViolation::UnknownModeId(99))
    ));
}

#[test]
fn feed_page_empty_page_finishes() {
    let mut pag = Paginator::new(1800000000);
    assert!(!pag.is_finished());
    pag.feed_page(&Vec::new(), TARGET).unwrap();
    assert!(pag.is_finished());
    assert_eq!(pag.current_cursor(), 1800000000);
    assert!(pag.into_matches().is_empty());
}

#[test]
fn feed_page_advances_cursor_past_oldest_record() {
    let mut pag = Paginator::new(1800000000);
    let page = vec![
        two_player_record(1700000900, 10),
        two_player_record(1700000300, -10),
    ];
    pag.feed_page(&page, TARGET).unwrap();
    assert_eq!(pag.current_cursor(), 1700000299);
    assert!(pag.is_finished());
    let matches = pag.into_matches();
    assert_eq!(matches.len(), 2);
    assert_eq!(matches[0].start_time, 1700000900);
    assert_eq!(matches[1].start_time, 1700000300);
}

#[test]
fn feed_page_error_leaves_state_unchanged() {
    let mut pag = Paginator::new(1800000000);
    let mut bad = two_player_record(1700000900, 10);
    bad.players.remove(0);
    let outcome = pag.feed_page(&vec![bad], TARGET);
    assert_eq!(outcome, Err(UpstreamViolation::TargetPlayerMissing));
    assert!(!pag.is_finished());
    assert_eq!(pag.current_cursor(), 1800000000);
    assert!(pag.into_matches().is_empty());
}

#[test]
fn fetch_all_keeps_ties_within_a_page() {
    let upstream = SimulatedUpstream {
        records: vec![
            two_player_record(1700000900, 10),
            two_player_record(1700000500, 10),
            two_player_record(1700000500, -10),
            two_player_record(1700000100, 10),
        ],
    };
    let matches = fetch_all(&upstream, 1800000000, TARGET).unwrap();
    assert_eq!(matches.len(), 4);
    assert_eq!(matches[1].start_time, 1700000500);
    assert_eq!(matches[2].start_time, 1700000500);
}

#[test]
fn fetch_all_tie_straddling_page_boundary() {
    // 499 recent records with distinct start times, then two sharing one
    // start time, then an older one: the first page is cut inside the tied
    // pair, and both of its records must still come back exactly once.
    let mut records = Vec::new();
    let mut i: u64 = 0;
    while i < 499 {
        records.push(two_player_record(FLOOR_TIMESTAMP + 1000 - i, 10));
        i += 1;
    }
    records.push(two_player_record(FLOOR_TIMESTAMP + 400, 10));
    records.push(two_player_record(FLOOR_TIMESTAMP + 400, -10));
    records.push(two_player_record(FLOOR_TIMESTAMP + 100, 10));
    let upstream = SimulatedUpstream { records };
    let matches = fetch_all(&upstream, 1800000000, TARGET).unwrap();
    assert_eq!(matches.len(), 502);
    let tied: Vec<i64> = matches
        .iter()
        .filter(|m| m.start_time == FLOOR_TIMESTAMP + 400)
        .map(|m| m.pt_change)
        .collect();
    assert_eq!(tied, [10, -10]);
    for pair in matches.windows(2) {
        assert!(pair[0].start_time >= pair[1].start_time);
    }
}

#[test]
fn feed_page_trims_trailing_tie_run_of_full_page() {
    let mut page = Vec::new();
    let mut i: u64 = 0;
    while i < 498 {
        page.push(two_player_record(1700000000 - i, 10));
        i += 1;
    }
    page.push(two_player_record(1690000000, 10));
    page.push(two_player_record(1690000000, -10));
    let mut pag = Paginator::new(1800000000);
    pag.feed_page(&page, TARGET).unwrap();
    // The tied trailing pair is left for the next request, whose cursor
    // still covers its start time.
    assert!(!pag.is_finished());
    assert_eq!(pag.current_cursor(), 1699999502);
    let page2 = vec![
        two_player_record(1690000000, 10),
        two_player_record(1690000000, -10),
    ];
    pag.feed_page(&page2, TARGET).unwrap();
    assert!(pag.is_finished());
    let matches = pag.into_matches();
    assert_eq!(matches.len(), 500);
    assert_eq!(matches[498].start_time, 1690000000);
    assert_eq!(matches[499].start_time, 1690000000);
}
