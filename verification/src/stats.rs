//! Presentation helpers and data shapes for player statistics.

use vstd::prelude::*;
use vstd::string::StringExecFns;
use crate::types::Username;
use crate::util::{fmt_u64, spec_dec_str, spec_starts_with, str_eq, str_starts_with};

verus! {

/// How a recent match ended.
pub enum MatchResult {
    Loss,
    Win,
    Tie,
}

impl MatchResult {
    /// The single-letter form a results row shows.
    pub open spec fn spec_letter(self) -> Seq<char> {
        match self {
            MatchResult::Loss => "L"@,
            MatchResult::Win => "W"@,
            MatchResult::Tie => "T"@,
        }
    }

    /// "L", "W" or "T".
    pub fn letter(&self) -> (r: String)
        ensures
            r@ == self.spec_letter(),
    {
        match self {
            MatchResult::Loss => String::from_str("L"),
            MatchResult::Win => String::from_str("W"),
            MatchResult::Tie => String::from_str("T"),
        }
    }
}

/// One rank record of a player profile.
pub struct LeetifyRank {
    pub rank_type: Option<String>,
    pub data_source: Option<String>,
    pub skill_level: Option<u32>,
}

/// One recent match of a player profile.
pub struct RecentMatch {
    pub result: MatchResult,
}

/// One row of the skill-level leaderboard.
pub struct HallOfFameEntry {
    pub username: Username,
    pub skill_level: u32,
}

/// Whether a command word names a game map.
pub fn matches_cs_map_name(cmd: &str) -> (r: bool)
    ensures
        r == (spec_starts_with(cmd@, "de_"@) || spec_starts_with(cmd@, "cs_"@)),
{
    str_starts_with(cmd, "de_") || str_starts_with(cmd, "cs_")
}

/// The leaderboard position marker: medals for the podium, "#N" below it.
pub open spec fn spec_index_to_pos(index: nat) -> Seq<char> {
    if index == 0 {
        "🥇"@
    } else if index == 1 {
        "🥈"@
    } else if index == 2 {
        "🥉"@
    } else {
        "#"@ + spec_dec_str(index + 1)
    }
}

/// Position marker for a zero-based leaderboard index.
pub fn index_to_pos(index: usize) -> (r: String)
    requires
        index < usize::MAX,
    ensures
        r@ == spec_index_to_pos(index as nat),
{
    if index == 0 {
        String::from_str("🥇")
    } else if index == 1 {
        String::from_str("🥈")
    } else if index == 2 {
        String::from_str("🥉")
    } else {
        let mut s = String::from_str("#");
        let tail = fmt_u64((index + 1) as u64);
        s.append(tail.as_str());
        s
    }
}

/// The named skill tiers, in rising order; anything out of range is
/// unranked.
pub open spec fn spec_rank_name(level: int) -> Seq<char> {
    if level == 1 {
        "Silver I"@
    } else if level == 2 {
        "Silver II"@
    } else if level == 3 {
        "Silver III"@
    } else if level == 4 {
        "Silver IV"@
    } else if level == 5 {
        "Silver Elite"@
    } else if level == 6 {
        "Silver Elite Master"@
    } else if level == 7 {
        "Gold Nova I"@
    } else if level == 8 {
        "Gold Nova II"@
    } else if level == 9 {
        "Gold Nova III"@
    } else if level == 10 {
        "Gold Nova Master"@
    } else if level == 11 {
        "Master Guardian I"@
    } else if level == 12 {
        "Master Guardian II"@
    } else if level == 13 {
        "Master Guardian Elite"@
    } else if level == 14 {
        "Distinguished Master Guardian"@
    } else if level == 15 {
        "Legendary Eagle"@
    } else if level == 16 {
        "Legendary Eagle Master"@
    } else if level == 17 {
        "Supreme Master First Class"@
    } else if level == 18 {
        "Global Elite"@
    } else {
        "Unranked"@
    }
}

/// A skill level as shown: tiers below 1000 carry their tier name, a
/// four-digit rating stands alone.
pub open spec fn spec_skill_text(skill_level: nat) -> Seq<char> {
    if skill_level < 1000 {
        spec_dec_str(skill_level) + ", "@ + spec_rank_name(skill_level as int)
    } else {
        spec_dec_str(skill_level)
    }
}

/// Formats a skill level for the leaderboard.
pub fn skill_level_to_cs2_rank(skill_level: u32) -> (r: String)
    ensures
        r@ == spec_skill_text(skill_level as nat),
{
    let number = fmt_u64(skill_level as u64);
    if skill_level < 1000 {
        let name: &str = match skill_level {
            1 => "Silver I",
            2 => "Silver II",
            3 => "Silver III",
            4 => "Silver IV",
            5 => "Silver Elite",
            6 => "Silver Elite Master",
            7 => "Gold Nova I",
            8 => "Gold Nova II",
            9 => "Gold Nova III",
            10 => "Gold Nova Master",
            11 => "Master Guardian I",
            12 => "Master Guardian II",
            13 => "Master Guardian Elite",
            14 => "Distinguished Master Guardian",
            15 => "Legendary Eagle",
            16 => "Legendary Eagle Master",
            17 => "Supreme Master First Class",
            18 => "Global Elite",
            _ => "Unranked",
        };
        let mut s = number;
        s.append(", ");
        s.append(name);
        s
    } else {
        number
    }
}

/// The human heading of a statistic key; an unknown key names itself.
pub open spec fn spec_stat_display_name(stat_type: Seq<char>) -> Seq<char> {
    if stat_type == "aim"@ {
        "Aim"@
    } else if stat_type == "positioning"@ {
        "Positioning"@
    } else if stat_type == "utility"@ {
        "Utility"@
    } else if stat_type == "opening"@ {
        "Opening Duels"@
    } else if stat_type == "clutch"@ {
        "Clutch"@
    } else if stat_type == "leetify"@ {
        "Leetify Rating"@
    } else {
        stat_type
    }
}

/// Heading shown for a statistic key.
pub fn stat_type_display_name(stat_type: &str) -> (r: String)
    ensures
        r@ == spec_stat_display_name(stat_type@),
{
    if str_eq(stat_type, "aim") {
        String::from_str("Aim")
    } else if str_eq(stat_type, "positioning") {
        String::from_str("Positioning")
    } else if str_eq(stat_type, "utility") {
        String::from_str("Utility")
    } else if str_eq(stat_type, "opening") {
        String::from_str("Opening Duels")
    } else if str_eq(stat_type, "clutch") {
        String::from_str("Clutch")
    } else if str_eq(stat_type, "leetify") {
        String::from_str("Leetify Rating")
    } else {
        String::from_str(stat_type)
    }
}

} // verus!
