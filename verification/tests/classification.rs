use majsoul_history::game_type::{GameCategory, GameRule, GameType};
use majsoul_history::UpstreamViolation;

fn expect(mode_id: u64, rule: GameRule, category: GameCategory) {
    let gt = GameType::classify(mode_id).unwrap();
    assert_eq!(gt, GameType { rule, category });
}

#[test]
fn classify_three_player_modes() {
    expect(21, GameRule::ThreePlayer, GameCategory::GoldEast);
    expect(22, GameRule::ThreePlayer, GameCategory::Gold);
    expect(23, GameRule::ThreePlayer, GameCategory::JadeEast);
    expect(24, GameRule::ThreePlayer, GameCategory::Jade);
    expect(25, GameRule::ThreePlayer, GameCategory::ThroneEast);
    expect(26, GameRule::ThreePlayer, GameCategory::Throne);
}

#[test]
fn classify_four_player_modes() {
    expect(8, GameRule::FourPlayer, GameCategory::GoldEast);
    expect(9, GameRule::FourPlayer, GameCategory::Gold);
    expect(11, GameRule::FourPlayer, GameCategory::JadeEast);
    expect(12, GameRule::FourPlayer, GameCategory::Jade);
    expect(15, GameRule::FourPlayer, GameCategory::ThroneEast);
    expect(16, GameRule::FourPlayer, GameCategory::Throne);
}

#[test]
fn classify_rejects_unknown_modes() {
    for mode_id in [0u64, 1, 7, 10, 13, 14, 17, 20, 27, 100, u64::MAX] {
        assert_eq!(
            GameType::classify(mode_id),
            Err(UpstreamViolation::UnknownModeId(mode_id))
        );
    }
}

#[test]
fn classify_is_injective_on_known_modes() {
    let known = [8u64, 9, 11, 12, 15, 16, 21, 22, 23, 24, 25, 26];
    for &a in known.iter() {
        for &b in known.iter() {
            if a != b {
                assert_ne!(GameType::classify(a).unwrap(), GameType::classify(b).unwrap());
            }
        }
    }
}

#[test]
fn display_names() {
    assert_eq!(GameType::classify(21).unwrap().display_name(), "3P Gold East");
    assert_eq!(GameType::classify(22).unwrap().display_name(), "3P Gold");
    assert_eq!(GameType::classify(23).unwrap().display_name(), "3P Jade East");
    assert_eq!(GameType::classify(24).unwrap().display_name(), "3P Jade");
    assert_eq!(GameType::classify(25).unwrap().display_name(), "3P Throne East");
    assert_eq!(GameType::classify(26).unwrap().display_name(), "3P Throne");
    assert_eq!(GameType::classify(8).unwrap().display_name(), "4P Gold East");
    assert_eq!(GameType::classify(9).unwrap().display_name(), "4P Gold");
    assert_eq!(GameType::classify(11).unwrap().display_name(), "4P Jade East");
    assert_eq!(GameType::classify(12).unwrap().display_name(), "4P Jade");
    assert_eq!(GameType::classify(15).unwrap().display_name(), "4P Throne East");
    assert_eq!(GameType::classify(16).unwrap().display_name(), "4P Throne");
}

#[test]
fn api_base_urls() {
    assert_eq!(
        GameRule::ThreePlayer.api_base_url(),
        "https://5-data.amae-koromo.com/api/v2/pl3"
    );
    assert_eq!(
        GameRule::FourPlayer.api_base_url(),
        "https://5-data.amae-koromo.com/api/v2/pl4"
    );
}

#[test]
fn supported_mode_id_lists() {
    assert_eq!(GameRule::ThreePlayer.supported_mode_ids(), "21,22,23,24,25,26");
    assert_eq!(GameRule::FourPlayer.supported_mode_ids(), "8,9,11,12,15,16");
}
