//! Presentation helpers for weather reports: symbol descriptions and the
//! friendly error text for unconfigured installations.

use vstd::prelude::*;
use vstd::string::{StrSliceExecFns, StringExecFns};
use crate::util::{spec_ends_with, str_ends_with, str_eq};

verus! {

/// The short-term summary block of a forecast series.
pub struct PeriodSummary {
    pub symbol_code: String,
}

/// What `str::to_lowercase` returns: the result depends on the characters
/// alone.
pub uninterp spec fn lowercase_of(s: Seq<char>) -> Seq<char>;

/// Relies on str::to_lowercase: one lowercased copy of the input, and an
/// empty input stays empty.
#[verifier::external_body]
fn lowercase(s: &str) -> (r: String)
    ensures
        r@ == lowercase_of(s@),
        s@.len() == 0 ==> r@.len() == 0,
{
    s.to_lowercase()
}

/// Whether `needle` occurs somewhere in `hay`.
pub open spec fn spec_contains(hay: Seq<char>, needle: Seq<char>) -> bool {
    exists|i: int|
        0 <= i && i + needle.len() <= hay.len() && #[trigger] hay.subrange(i, i + needle.len())
            == needle
}

/// Relies on str::contains: whether the needle occurs as a substring.
#[verifier::external_body]
fn contains_sub(hay: &str, needle: &str) -> (r: bool)
    ensures
        r == spec_contains(hay@, needle@),
{
    hay.contains(needle)
}

/// The symbol code with any day/night suffix dropped.
pub open spec fn spec_symbol_base(code: Seq<char>) -> Seq<char> {
    if spec_ends_with(code, "_day"@) {
        code.take(code.len() - "_day"@.len())
    } else if spec_ends_with(code, "_night"@) {
        code.take(code.len() - "_night"@.len())
    } else if spec_ends_with(code, "_polartwilight"@) {
        code.take(code.len() - "_polartwilight"@.len())
    } else {
        code
    }
}

/// Underscores become spaces; every other character stays.
pub open spec fn spec_spaced(s: Seq<char>) -> Seq<char> {
    s.map_values(|c: char| if c == '_' { ' ' } else { c })
}

/// The descriptions of the base symbol codes; an unknown code reads as
/// itself with underscores turned into spaces.
pub open spec fn spec_symbol_description(code: Seq<char>) -> Seq<char> {
    let base = spec_symbol_base(code);
    if base == "clearsky"@ {
        "clear sky"@
    } else if base == "fair"@ {
        "fair"@
    } else if base == "partlycloudy"@ {
        "partly cloudy"@
    } else if base == "cloudy"@ {
        "cloudy"@
    } else if base == "lightrain"@ {
        "light rain"@
    } else if base == "rain"@ {
        "rain"@
    } else if base == "heavyrain"@ {
        "heavy rain"@
    } else if base == "lightrainandthunder"@ {
        "light rain and thunder"@
    } else if base == "rainandthunder"@ {
        "rain and thunder"@
    } else if base == "heavyrainandthunder"@ {
        "heavy rain and thunder"@
    } else if base == "lightsleet"@ {
        "light sleet"@
    } else if base == "sleet"@ {
        "sleet"@
    } else if base == "heavysleet"@ {
        "heavy sleet"@
    } else if base == "lightsleetandthunder"@ {
        "light sleet and thunder"@
    } else if base == "sleetandthunder"@ {
        "sleet and thunder"@
    } else if base == "heavysleetandthunder"@ {
        "heavy sleet and thunder"@
    } else if base == "lightsnow"@ {
        "light snow"@
    } else if base == "snow"@ {
        "snow"@
    } else if base == "heavysnow"@ {
        "heavy snow"@
    } else if base == "lightsnowandthunder"@ {
        "light snow and thunder"@
    } else if base == "snowandthunder"@ {
        "snow and thunder"@
    } else if base == "heavysnowandthunder"@ {
        "heavy snow and thunder"@
    } else if base == "rainshowers"@ {
        "rain showers"@
    } else if base == "heavyrainshowers"@ {
        "heavy rain showers"@
    } else if base == "lightrainshowers"@ {
        "light rain showers"@
    } else if base == "rainshowersandthunder"@ {
        "rain showers and thunder"@
    } else if base == "sleetshowers"@ {
        "sleet showers"@
    } else if base == "heavysleetshowers"@ {
        "heavy sleet showers"@
    } else if base == "lightsleetshowers"@ {
        "light sleet showers"@
    } else if base == "sleetshowersandthunder"@ {
        "sleet showers and thunder"@
    } else if base == "snowshowers"@ {
        "snow showers"@
    } else if base == "heavysnowshowers"@ {
        "heavy snow showers"@
    } else if base == "lightsnowshowers"@ {
        "light snow showers"@
    } else if base == "snowshowersandthunder"@ {
        "snow showers and thunder"@
    } else if base == "lightssleetshowersandthunder"@ {
        "light sleet showers and thunder"@
    } else if base == "lightssnowshowersandthunder"@ {
        "light snow showers and thunder"@
    } else if base == "fog"@ {
        "fog"@
    } else {
        spec_spaced(base)
    }
}

/// Map a forecast symbol code to a human-friendly description; day and
/// night variants of one symbol read the same.
pub fn symbol_description(code: &str) -> (r: String)
    ensures
        r@ == spec_symbol_description(code@),
{
    let n = code.unicode_len();
    let base: &str = if str_ends_with(code, "_day") {
        proof {
            reveal_strlit("_day");
        }
        code.substring_char(0, n - 4)
    } else if str_ends_with(code, "_night") {
        proof {
            reveal_strlit("_night");
        }
        code.substring_char(0, n - 6)
    } else if str_ends_with(code, "_polartwilight") {
        proof {
            reveal_strlit("_polartwilight");
        }
        code.substring_char(0, n - 14)
    } else {
        code
    };
    proof {
        assert(base@ == spec_symbol_base(code@)) by {
            reveal_strlit("_day");
            reveal_strlit("_night");
            reveal_strlit("_polartwilight");
        }
    }
    if str_eq(base, "clearsky") {
        String::from_str("clear sky")
    } else if str_eq(base, "fair") {
        String::from_str("fair")
    } else if str_eq(base, "partlycloudy") {
        String::from_str("partly cloudy")
    } else if str_eq(base, "cloudy") {
        String::from_str("cloudy")
    } else if str_eq(base, "lightrain") {
        String::from_str("light rain")
    } else if str_eq(base, "rain") {
        String::from_str("rain")
    } else if str_eq(base, "heavyrain") {
        String::from_str("heavy rain")
    } else if str_eq(base, "lightrainandthunder") {
        String::from_str("light rain and thunder")
    } else if str_eq(base, "rainandthunder") {
        String::from_str("rain and thunder")
    } else if str_eq(base, "heavyrainandthunder") {
        String::from_str("heavy rain and thunder")
    } else if str_eq(base, "lightsleet") {
        String::from_str("light sleet")
    } else if str_eq(base, "sleet") {
        String::from_str("sleet")
    } else if str_eq(base, "heavysleet") {
        String::from_str("heavy sleet")
    } else if str_eq(base, "lightsleetandthunder") {
        String::from_str("light sleet and thunder")
    } else if str_eq(base, "sleetandthunder") {
        String::from_str("sleet and thunder")
    } else if str_eq(base, "heavysleetandthunder") {
        String::from_str("heavy sleet and thunder")
    } else if str_eq(base, "lightsnow") {
        String::from_str("light snow")
    } else if str_eq(base, "snow") {
        String::from_str("snow")
    } else if str_eq(base, "heavysnow") {
        String::from_str("heavy snow")
    } else if str_eq(base, "lightsnowandthunder") {
        String::from_str("light snow and thunder")
    } else if str_eq(base, "snowandthunder") {
        String::from_str("snow and thunder")
    } else if str_eq(base, "heavysnowandthunder") {
        String::from_str("heavy snow and thunder")
    } else if str_eq(base, "rainshowers") {
        String::from_str("rain showers")
    } else if str_eq(base, "heavyrainshowers") {
        String::from_str("heavy rain showers")
    } else if str_eq(base, "lightrainshowers") {
        String::from_str("light rain showers")
    } else if str_eq(base, "rainshowersandthunder") {
        String::from_str("rain showers and thunder")
    } else if str_eq(base, "sleetshowers") {
        String::from_str("sleet showers")
    } else if str_eq(base, "heavysleetshowers") {
        String::from_str("heavy sleet showers")
    } else if str_eq(base, "lightsleetshowers") {
        String::from_str("light sleet showers")
    } else if str_eq(base, "sleetshowersandthunder") {
        String::from_str("sleet showers and thunder")
    } else if str_eq(base, "snowshowers") {
        String::from_str("snow showers")
    } else if str_eq(base, "heavysnowshowers") {
        String::from_str("heavy snow showers")
    } else if str_eq(base, "lightsnowshowers") {
        String::from_str("light snow showers")
    } else if str_eq(base, "snowshowersandthunder") {
        String::from_str("snow showers and thunder")
    } else if str_eq(base, "lightssleetshowersandthunder") {
        String::from_str("light sleet showers and thunder")
    } else if str_eq(base, "lightssnowshowersandthunder") {
        String::from_str("light snow showers and thunder")
    } else if str_eq(base, "fog") {
        String::from_str("fog")
    } else {
        let m = base.unicode_len();
        let mut out = String::new();
        let mut i: usize = 0;
        while i < m
            invariant
                m == base@.len(),
                i <= m,
                out@ == spec_spaced(base@.take(i as int)),
            decreases m - i,
        {
            let c = base.get_char(i);
            if c == '_' {
                out.append(" ");
            } else {
                let piece = base.substring_char(i, i + 1);
                out.append(piece);
            }
            proof {
                reveal_strlit(" ");
                assert(out@ =~= spec_spaced(base@.take(i as int + 1)));
            }
            i = i + 1;
        }
        proof {
            assert(base@.take(m as int) =~= base@);
        }
        out
    }
}

/// "N/A" when there is no symbol, its description otherwise.
pub fn fmt_symbol(symbol: &Option<String>) -> (r: String)
    ensures
        match symbol {
            Some(code) => r@ == spec_symbol_description(code@),
            None => r@ == "N/A"@,
        },
{
    match symbol {
        Some(code) => symbol_description(code.as_str()),
        None => String::from_str("N/A"),
    }
}

/// The advice shown when weather lookups fail because nothing is
/// configured.
pub open spec fn spec_config_advice() -> Seq<char> {
    "Weather is not configured. Ask an admin to set the [weather] section with latitude, longitude, and display_name in Settings.toml"@
}

/// Whether an error text points at missing configuration.
pub open spec fn spec_config_related(error: Seq<char>) -> bool {
    ||| spec_contains(lowercase_of(error), "weather not configured"@)
    ||| spec_contains(lowercase_of(error), "display_name is empty"@)
    ||| spec_contains(lowercase_of(error), "settings"@)
}

/// Build a user-friendly error message for weather commands: point at the
/// configuration when the error text suggests it, fall back otherwise.
pub fn friendly_weather_error_message(error: &str, fallback: &str) -> (r: String)
    ensures
        spec_config_related(error@) ==> r@ == spec_config_advice(),
        !spec_config_related(error@) ==> r@ == fallback@,
{
    let chain_lower = lowercase(error);
    if contains_sub(chain_lower.as_str(), "weather not configured") || contains_sub(
        chain_lower.as_str(),
        "display_name is empty",
    ) || contains_sub(chain_lower.as_str(), "settings") {
        String::from_str(
            "Weather is not configured. Ask an admin to set the [weather] section with latitude, longitude, and display_name in Settings.toml",
        )
    } else {
        String::from_str(fallback)
    }
}

} // verus!
