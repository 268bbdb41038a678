//! Text helpers: time formatting, status messages and the player list a
//! chat sees.

use vstd::prelude::*;
use vstd::string::{StrSliceExecFns, StringExecFns};
use crate::codec::{push_digit, spec_digit};
use crate::state::{spec_op_text, AddRemovePlayerOp, Queue, QueueModel, QUEUE_SIZE};
use crate::types::{QueueId, QueueTime, Username};

verus! {

/// A number in plain decimal, without leading zeroes.
pub open spec fn spec_dec_str(n: nat) -> Seq<char>
    decreases n,
{
    if n < 10 {
        seq![spec_digit(n as int)]
    } else {
        spec_dec_str(n / 10).push(spec_digit((n % 10) as int))
    }
}

/// Write a number in plain decimal.
pub fn fmt_u64(n: u64) -> (r: String)
    ensures
        r@ == spec_dec_str(n as nat),
    decreases n,
{
    if n < 10 {
        let mut s = String::new();
        push_digit(&mut s, n);
        proof {
            assert(s@ =~= spec_dec_str(n as nat));
        }
        s
    } else {
        let mut s = fmt_u64(n / 10);
        push_digit(&mut s, n % 10);
        s
    }
}

/// "HH:MM", zero padded.
pub open spec fn spec_fmt_time(t: QueueTime) -> Seq<char> {
    seq![
        spec_digit(t.hour as int / 10),
        spec_digit(t.hour as int % 10),
        ':',
        spec_digit(t.minute as int / 10),
        spec_digit(t.minute as int % 10),
    ]
}

/// Formats a time of day in the queue-label form "HH:MM".
pub fn fmt_naive_time(t: &QueueTime) -> (r: String)
    requires
        t.wf(),
    ensures
        r@ == spec_fmt_time(*t),
{
    let mut s = String::new();
    push_digit(&mut s, (t.hour / 10) as u64);
    push_digit(&mut s, (t.hour % 10) as u64);
    s.append(":");
    push_digit(&mut s, (t.minute / 10) as u64);
    push_digit(&mut s, (t.minute % 10) as u64);
    proof {
        reveal_strlit(":");
        assert(s@ =~= spec_fmt_time(*t));
    }
    s
}

/// One player name as shown: with a leading "@" when highlighting.
pub open spec fn spec_shown_name(name: Seq<char>, highlight: bool) -> Seq<char> {
    if highlight {
        "@"@ + name
    } else {
        name
    }
}

/// Names joined with ", ", in order.
pub open spec fn spec_names_join(names: Seq<Seq<char>>, highlight: bool) -> Seq<char>
    decreases names.len(),
{
    if names.len() == 0 {
        Seq::empty()
    } else if names.len() == 1 {
        spec_shown_name(names[0], highlight)
    } else {
        spec_names_join(names.drop_last(), highlight) + ", "@ + spec_shown_name(
            names.last(),
            highlight,
        )
    }
}

/// Join a list of player names with ", ".
fn join_names(names: &Vec<Username>, highlight: bool) -> (r: String)
    ensures
        r@ == spec_names_join(names@.map_values(|u: Username| u@), highlight),
{
    let ghost views = names@.map_values(|u: Username| u@);
    let mut s = String::new();
    let n = names.len();
    let mut i: usize = 0;
    while i < n
        invariant
            n == names@.len(),
            views == names@.map_values(|u: Username| u@),
            i <= n,
            s@ == spec_names_join(views.take(i as int), highlight),
        decreases n - i,
    {
        let ghost prev = s@;
        if i > 0 {
            s.append(", ");
        }
        if highlight {
            s.append("@");
        }
        s.append(names[i].name());
        proof {
            let taken = views.take(i as int + 1);
            assert(taken.drop_last() =~= views.take(i as int));
            assert(taken.last() == views[i as int]);
            if i == 0 {
                assert(s@ =~= spec_names_join(taken, highlight));
            } else {
                assert(s@ =~= spec_names_join(taken, highlight));
            }
        }
        i = i + 1;
    }
    proof {
        assert(views.take(n as int) =~= views);
    }
    s
}

/// The status line body listing a queue's players: "N/M" count, the first
/// `QUEUE_SIZE` players (or "no players"), and the reserve list when the
/// queue holds more than its capacity.
pub open spec fn spec_players_str(m: QueueModel, highlight: bool, short: bool) -> Seq<char> {
    let title = if short {
        Seq::<char>::empty()
    } else {
        "Players: "@
    };
    let count = spec_dec_str(m.players.len()) + "/"@ + spec_dec_str(QUEUE_SIZE as nat);
    let main = if m.players.len() > QUEUE_SIZE {
        m.players.take(QUEUE_SIZE as int)
    } else {
        m.players
    };
    let joined = spec_names_join(main, highlight);
    let shown = if joined.len() == 0 {
        "no players"@
    } else {
        joined
    };
    if m.players.len() > QUEUE_SIZE {
        title + count + " ("@ + shown + ", Reserve: "@ + spec_names_join(
            m.players.skip(QUEUE_SIZE as int),
            highlight,
        ) + ")"@
    } else {
        title + count + " ("@ + shown + ")"@
    }
}

/// Creates a string containing the list of players in queue.
pub fn mk_players_str(queue: &Queue, highlight: bool, short: bool) -> (r: String)
    ensures
        r@ == spec_players_str(queue.model(), highlight, short),
{
    let (main, reserve) = queue.get_players();
    let mut s = String::new();
    if !short {
        s.append("Players: ");
    }
    let count = fmt_u64(queue.num_players() as u64);
    s.append(count.as_str());
    s.append("/");
    let size = fmt_u64(QUEUE_SIZE as u64);
    s.append(size.as_str());
    s.append(" (");
    let joined = join_names(&main, highlight);
    if joined.as_str().unicode_len() == 0 {
        s.append("no players");
    } else {
        s.append(joined.as_str());
    }
    match reserve {
        Some(rs) => {
            s.append(", Reserve: ");
            let joined_reserve = join_names(&rs, highlight);
            s.append(joined_reserve.as_str());
            s.append(")");
            proof {
                assert(s@ =~= spec_players_str(queue.model(), highlight, short));
            }
        },
        None => {
            s.append(")");
            proof {
                assert(s@ =~= spec_players_str(queue.model(), highlight, short));
            }
        },
    }
    s
}

/// The full status message for a queue after a toggle.
pub open spec fn spec_status_msg(m: QueueModel, id: QueueId, op: AddRemovePlayerOp) -> Seq<char> {
    id.spec_display_name() + " queue: "@ + spec_op_text(op) + ".\n"@ + spec_players_str(
        m,
        false,
        false,
    ) + ".\nUse "@ + m.add_cmd + " to add/remove yourself from the queue!"@
}

/// Constructs a status message describing current queue status.
pub fn mk_queue_status_msg(queue: &Queue, queue_id: &QueueId, op: &AddRemovePlayerOp) -> (r:
    String)
    ensures
        r@ == spec_status_msg(queue.model(), *queue_id, *op),
{
    let mut s = queue_id.display_name();
    s.append(" queue: ");
    let op_text = op.describe();
    s.append(op_text.as_str());
    s.append(".\n");
    let players = mk_players_str(queue, false, false);
    s.append(players.as_str());
    s.append(".\nUse ");
    s.append(queue.add_cmd().as_str());
    s.append(" to add/remove yourself from the queue!");
    proof {
        assert(s@ =~= spec_status_msg(queue.model(), *queue_id, *op));
    }
    s
}

/// The display name picked for a caller: their username if set, first and
/// last names when a last name exists, the first name alone otherwise.
pub open spec fn spec_mk_username(
    username: Option<Seq<char>>,
    first_name: Seq<char>,
    last_name: Option<Seq<char>>,
) -> Seq<char> {
    match username {
        Some(u) => u,
        None => match last_name {
            Some(l) => first_name + " "@ + l,
            None => first_name,
        },
    }
}

/// Tries in order to pick a user's username, first and last names, or
/// first name alone.
pub fn mk_username(username: Option<String>, first_name: String, last_name: Option<String>) -> (r:
    Username)
    ensures
        r@ == spec_mk_username(
            match username {
                Some(u) => Some(u@),
                None => None,
            },
            first_name@,
            match last_name {
                Some(l) => Some(l@),
                None => None,
            },
        ),
{
    match username {
        Some(u) => Username::new(u),
        None => match last_name {
            Some(l) => {
                let mut s = first_name;
                s.append(" ");
                s.append(l.as_str());
                Username::new(s)
            },
            None => Username::new(first_name),
        },
    }
}

/// Compare two string slices character by character.
pub fn str_eq(a: &str, b: &str) -> (r: bool)
    ensures
        r == (a@ == b@),
{
    let n = a.unicode_len();
    if n != b.unicode_len() {
        return false;
    }
    let mut i: usize = 0;
    while i < n
        invariant
            n == a@.len(),
            n == b@.len(),
            i <= n,
            forall|k: int| 0 <= k < i ==> a@[k] == b@[k],
        decreases n - i,
    {
        if a.get_char(i) != b.get_char(i) {
            return false;
        }
        i = i + 1;
    }
    proof {
        assert(a@ =~= b@);
    }
    true
}

/// Whether `s` starts with `prefix`.
pub open spec fn spec_starts_with(s: Seq<char>, prefix: Seq<char>) -> bool {
    s.len() >= prefix.len() && s.subrange(0, prefix.len() as int) == prefix
}

/// Check a prefix character by character.
pub fn str_starts_with(s: &str, prefix: &str) -> (r: bool)
    ensures
        r == spec_starts_with(s@, prefix@),
{
    let n = prefix.unicode_len();
    if s.unicode_len() < n {
        return false;
    }
    let mut i: usize = 0;
    while i < n
        invariant
            n == prefix@.len(),
            n <= s@.len(),
            i <= n,
            forall|k: int| 0 <= k < i ==> s@[k] == prefix@[k],
        decreases n - i,
    {
        if s.get_char(i) != prefix.get_char(i) {
            proof {
                assert(s@.subrange(0, n as int)[i as int] != prefix@[i as int]);
            }
            return false;
        }
        i = i + 1;
    }
    proof {
        assert(s@.subrange(0, n as int) =~= prefix@);
    }
    true
}

/// Whether `s` ends with `suffix`.
pub open spec fn spec_ends_with(s: Seq<char>, suffix: Seq<char>) -> bool {
    s.len() >= suffix.len() && s.subrange(s.len() - suffix.len(), s.len() as int) == suffix
}

/// Check a suffix character by character.
pub fn str_ends_with(s: &str, suffix: &str) -> (r: bool)
    ensures
        r == spec_ends_with(s@, suffix@),
{
    let n = suffix.unicode_len();
    let m = s.unicode_len();
    if m < n {
        return false;
    }
    let mut i: usize = 0;
    while i < n
        invariant
            n == suffix@.len(),
            n <= m == s@.len(),
            i <= n,
            forall|k: int| 0 <= k < i ==> s@[m - n + k] == suffix@[k],
        decreases n - i,
    {
        if s.get_char(m - n + i) != suffix.get_char(i) {
            proof {
                assert(s@.subrange(m - n, m as int)[i as int] != suffix@[i as int]);
            }
            return false;
        }
        i = i + 1;
    }
    proof {
        assert(s@.subrange(m - n, m as int) =~= suffix@);
    }
    true
}

} // verus!
