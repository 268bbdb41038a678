//! Settings data the queue core reads: the transport token and the player
//! account mapping.

use vstd::prelude::*;
use crate::types::{SteamID, Username};

verus! {

/// Credentials of the chat transport.
pub struct TeloxideSettings {
    pub bot_api_token: String,
}

/// The configured player-to-account mapping, in file order.
pub struct PlayersSettings {
    pub steamid_mappings: Vec<(Username, SteamID)>,
}

/// First account stored under `name`, scanning from the front.
pub open spec fn lookup_steamid(
    mappings: Seq<(Username, SteamID)>,
    name: Seq<char>,
) -> Option<Seq<char>>
    decreases mappings.len(),
{
    if mappings.len() == 0 {
        None
    } else if mappings[0].0@ == name {
        Some(mappings[0].1@)
    } else {
        lookup_steamid(mappings.drop_first(), name)
    }
}

/// The account configured for a player, if any.
pub fn steamid_for_username(settings: &PlayersSettings, username: &Username) -> (r: Option<
    SteamID,
>)
    ensures
        match r {
            Some(id) => lookup_steamid(settings.steamid_mappings@, username@) == Some(id@),
            None => lookup_steamid(settings.steamid_mappings@, username@) is None,
        },
{
    let n = settings.steamid_mappings.len();
    let mut i: usize = 0;
    while i < n
        invariant
            n == settings.steamid_mappings@.len(),
            i <= n,
            forall|k: int| 0 <= k < i ==> settings.steamid_mappings@[k].0@ != username@,
        decreases n - i,
    {
        if settings.steamid_mappings[i].0 == *username {
            let id = settings.steamid_mappings[i].1.clone();
            proof {
                lemma_lookup_steamid_at(settings.steamid_mappings@, username@, i as int);
            }
            return Some(id);
        }
        i = i + 1;
    }
    proof {
        lemma_lookup_steamid_absent(settings.steamid_mappings@, username@);
    }
    None
}

/// First-match lookup agrees with the index a front-to-back scan finds.
proof fn lemma_lookup_steamid_at(mappings: Seq<(Username, SteamID)>, name: Seq<char>, i: int)
    requires
        0 <= i < mappings.len(),
        mappings[i].0@ == name,
        forall|k: int| 0 <= k < i ==> mappings[k].0@ != name,
    ensures
        lookup_steamid(mappings, name) == Some(mappings[i].1@),
    decreases mappings.len(),
{
    if i > 0 {
        lemma_lookup_steamid_at(mappings.drop_first(), name, i - 1);
    }
}

/// A lookup that misses every entry returns nothing.
proof fn lemma_lookup_steamid_absent(mappings: Seq<(Username, SteamID)>, name: Seq<char>)
    requires
        forall|k: int| 0 <= k < mappings.len() ==> mappings[k].0@ != name,
    ensures
        lookup_steamid(mappings, name) is None,
    decreases mappings.len(),
{
    if mappings.len() > 0 {
        assert(forall|k: int|
            0 <= k < mappings.drop_first().len() ==> mappings.drop_first()[k] == mappings[k + 1]);
        lemma_lookup_steamid_absent(mappings.drop_first(), name);
    }
}

} // verus!
