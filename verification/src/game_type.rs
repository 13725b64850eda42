//! Mode classification: the closed mapping from an upstream mode identifier
//! to a ruleset/category pair, together with its display form.

use vstd::prelude::*;
use crate::UpstreamViolation;

verus! {

/// Which ruleset a match was played under; selects the upstream API base
/// path and the set of valid mode identifiers.
#[derive(Clone, Copy, Debug, PartialEq, Eq, Structural)]
pub enum GameRule {
    ThreePlayer,
    FourPlayer,
}

/// Skill-tier / match-length combination of a match.
#[derive(Clone, Copy, Debug, PartialEq, Eq, Structural)]
pub enum GameCategory {
    Gold,
    GoldEast,
    Jade,
    JadeEast,
    Throne,
    ThroneEast,
}

/// A match's game type: ruleset plus category, derived losslessly from an
/// upstream mode identifier.
#[derive(Clone, Copy, Debug, PartialEq, Eq, Structural)]
pub struct GameType {
    pub rule: GameRule,
    pub category: GameCategory,
}

/// The fixed, hand-enumerated mapping from a mode identifier to its game
/// type. Exactly the twelve known identifiers map to a value; every other
/// identifier is an upstream contract violation, not a representable value.
pub open spec fn classify_spec(mode_id: u64) -> Option<GameType> {
    if mode_id == 21 {
        Some(GameType { rule: GameRule::ThreePlayer, category: GameCategory::GoldEast })
    } else if mode_id == 22 {
        Some(GameType { rule: GameRule::ThreePlayer, category: GameCategory::Gold })
    } else if mode_id == 23 {
        Some(GameType { rule: GameRule::ThreePlayer, category: GameCategory::JadeEast })
    } else if mode_id == 24 {
        Some(GameType { rule: GameRule::ThreePlayer, category: GameCategory::Jade })
    } else if mode_id == 25 {
        Some(GameType { rule: GameRule::ThreePlayer, category: GameCategory::ThroneEast })
    } else if mode_id == 26 {
        Some(GameType { rule: GameRule::ThreePlayer, category: GameCategory::Throne })
    } else if mode_id == 8 {
        Some(GameType { rule: GameRule::FourPlayer, category: GameCategory::GoldEast })
    } else if mode_id == 9 {
        Some(GameType { rule: GameRule::FourPlayer, category: GameCategory::Gold })
    } else if mode_id == 11 {
        Some(GameType { rule: GameRule::FourPlayer, category: GameCategory::JadeEast })
    } else if mode_id == 12 {
        Some(GameType { rule: GameRule::FourPlayer, category: GameCategory::Jade })
    } else if mode_id == 15 {
        Some(GameType { rule: GameRule::FourPlayer, category: GameCategory::ThroneEast })
    } else if mode_id == 16 {
        Some(GameType { rule: GameRule::FourPlayer, category: GameCategory::Throne })
    } else {
        None
    }
}

/// A mode identifier the upstream mode space contains.
pub open spec fn is_known_mode_id(mode_id: u64) -> bool {
    classify_spec(mode_id) is Some
}

/// Display form of a game type: `"<3P|4P> <category>"`.
pub open spec fn display_name_spec(gt: GameType) -> Seq<char> {
    match gt.rule {
        GameRule::ThreePlayer => match gt.category {
            GameCategory::Gold => "3P Gold"@,
            GameCategory::GoldEast => "3P Gold East"@,
            GameCategory::Jade => "3P Jade"@,
            GameCategory::JadeEast => "3P Jade East"@,
            GameCategory::Throne => "3P Throne"@,
            GameCategory::ThroneEast => "3P Throne East"@,
        },
        GameRule::FourPlayer => match gt.category {
            GameCategory::Gold => "4P Gold"@,
            GameCategory::GoldEast => "4P Gold East"@,
            GameCategory::Jade => "4P Jade"@,
            GameCategory::JadeEast => "4P Jade East"@,
            GameCategory::Throne => "4P Throne"@,
            GameCategory::ThroneEast => "4P Throne East"@,
        },
    }
}

/// Base URL of the upstream API serving this ruleset.
pub open spec fn api_base_url_spec(rule: GameRule) -> Seq<char> {
    match rule {
        GameRule::ThreePlayer => "https://5-data.amae-koromo.com/api/v2/pl3"@,
        GameRule::FourPlayer => "https://5-data.amae-koromo.com/api/v2/pl4"@,
    }
}

/// Comma-separated mode identifiers valid under this ruleset, passed
/// verbatim to the upstream records endpoint.
pub open spec fn supported_mode_ids_spec(rule: GameRule) -> Seq<char> {
    match rule {
        GameRule::ThreePlayer => "21,22,23,24,25,26"@,
        GameRule::FourPlayer => "8,9,11,12,15,16"@,
    }
}

impl GameRule {
    pub fn api_base_url(&self) -> (r: &'static str)
        ensures
            r@ == api_base_url_spec(*self),
    {
        match self {
            GameRule::ThreePlayer => "https://5-data.amae-koromo.com/api/v2/pl3",
            GameRule::FourPlayer => "https://5-data.amae-koromo.com/api/v2/pl4",
        }
    }

    pub fn supported_mode_ids(&self) -> (r: &'static str)
        ensures
            r@ == supported_mode_ids_spec(*self),
    {
        match self {
            GameRule::ThreePlayer => "21,22,23,24,25,26",
            GameRule::FourPlayer => "8,9,11,12,15,16",
        }
    }
}

impl GameType {
    /// Classify an upstream mode identifier. Succeeds exactly on the twelve
    /// known identifiers; any other identifier is reported as an upstream
    /// contract violation rather than mapped to a default.
    pub fn classify(mode_id: u64) -> (r: Result<GameType, UpstreamViolation>)
        ensures
            is_known_mode_id(mode_id) ==> r == Ok::<GameType, UpstreamViolation>(
                classify_spec(mode_id)->Some_0,
            ),
            !is_known_mode_id(mode_id) ==> r == Err::<GameType, UpstreamViolation>(
                UpstreamViolation::UnknownModeId(mode_id),
            ),
    {
        match mode_id {
            21 => Ok(GameType { rule: GameRule::ThreePlayer, category: GameCategory::GoldEast }),
            22 => Ok(GameType { rule: GameRule::ThreePlayer, category: GameCategory::Gold }),
            23 => Ok(GameType { rule: GameRule::ThreePlayer, category: GameCategory::JadeEast }),
            24 => Ok(GameType { rule: GameRule::ThreePlayer, category: GameCategory::Jade }),
            25 => Ok(GameType { rule: GameRule::ThreePlayer, category: GameCategory::ThroneEast }),
            26 => Ok(GameType { rule: GameRule::ThreePlayer, category: GameCategory::Throne }),
            8 => Ok(GameType { rule: GameRule::FourPlayer, category: GameCategory::GoldEast }),
            9 => Ok(GameType { rule: GameRule::FourPlayer, category: GameCategory::Gold }),
            11 => Ok(GameType { rule: GameRule::FourPlayer, category: GameCategory::JadeEast }),
            12 => Ok(GameType { rule: GameRule::FourPlayer, category: GameCategory::Jade }),
            15 => Ok(GameType { rule: GameRule::FourPlayer, category: GameCategory::ThroneEast }),
            16 => Ok(GameType { rule: GameRule::FourPlayer, category: GameCategory::Throne }),
            _ => Err(UpstreamViolation::UnknownModeId(mode_id)),
        }
    }

    /// Render the display form, e.g. `"3P Gold East"`.
    pub fn display_name(&self) -> (r: String)
        ensures
            r@ == display_name_spec(*self),
    {
        let text: &'static str = match (self.rule, self.category) {
            (GameRule::ThreePlayer, GameCategory::Gold) => "3P Gold",
            (GameRule::ThreePlayer, GameCategory::GoldEast) => "3P Gold East",
            (GameRule::ThreePlayer, GameCategory::Jade) => "3P Jade",
            (GameRule::ThreePlayer, GameCategory::JadeEast) => "3P Jade East",
            (GameRule::ThreePlayer, GameCategory::Throne) => "3P Throne",
            (GameRule::ThreePlayer, GameCategory::ThroneEast) => "3P Throne East",
            (GameRule::FourPlayer, GameCategory::Gold) => "4P Gold",
            (GameRule::FourPlayer, GameCategory::GoldEast) => "4P Gold East",
            (GameRule::FourPlayer, GameCategory::Jade) => "4P Jade",
            (GameRule::FourPlayer, GameCategory::JadeEast) => "4P Jade East",
            (GameRule::FourPlayer, GameCategory::Throne) => "4P Throne",
            (GameRule::FourPlayer, GameCategory::ThroneEast) => "4P Throne East",
        };
        text.to_string()
    }
}

/// Classification is a bijection on the known mode space: distinct known
/// identifiers classify to distinct game types. Together with `classify`'s
/// postcondition — success exactly on the twelve known identifiers — this
/// states totality and injectivity of the mapping.
pub proof fn lemma_classify_bijective(a: u64, b: u64)
    requires
        is_known_mode_id(a),
        is_known_mode_id(b),
        a != b,
    ensures
        classify_spec(a) != classify_spec(b),
{
}

} // verus!
