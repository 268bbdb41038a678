//! Durable text encoding of the whole state: a single record, written in
//! full on every mutation and read back in full at startup.  Every number
//! is a fixed-width decimal field and every string is length-prefixed, so
//! the encoding of a state is unique and decoding inverts it exactly; a
//! record that is not a valid encoding is rejected, never patched up.

use vstd::prelude::*;
use vstd::arithmetic::div_mod::{lemma_div_denominator, lemma_multiply_divide_lt};
use vstd::string::{StrSliceExecFns, StringExecFns};
use crate::state::{
    has_chat_id, has_queue_id, queue_entry_wf, queue_model_wf, queues_similar, states_similar, Chat, ChatEntry,
    Queue, QueueEntry, QueueModel, State, QUEUE_SIZE,
};
use crate::types::{ChatId, QueueId, QueueTime, Username};

verus! {

/// Width of every numeric field: enough decimal digits for any `u64`.
pub const NUM_WIDTH: usize = 20;

/// Ten to the `k`.
pub open spec fn pow10(k: nat) -> int
    decreases k,
{
    if k == 0 {
        1
    } else {
        10 * pow10((k - 1) as nat)
    }
}

/// The decimal digit characters, least to greatest.
pub open spec fn spec_digit(d: int) -> char {
    if d == 0 {
        '0'
    } else if d == 1 {
        '1'
    } else if d == 2 {
        '2'
    } else if d == 3 {
        '3'
    } else if d == 4 {
        '4'
    } else if d == 5 {
        '5'
    } else if d == 6 {
        '6'
    } else if d == 7 {
        '7'
    } else if d == 8 {
        '8'
    } else {
        '9'
    }
}

pub open spec fn is_digit_char(c: char) -> bool {
    '0' <= c <= '9'
}

pub open spec fn digit_val(c: char) -> int {
    c as int - '0' as int
}

/// `n` written as exactly `w` decimal digits, most significant first
/// (truncated to its `w` lowest digits).
pub open spec fn spec_enc_nat(n: nat, w: nat) -> Seq<char>
    decreases w,
{
    if w == 0 {
        Seq::empty()
    } else {
        spec_enc_nat(n / 10, (w - 1) as nat).push(spec_digit((n % 10) as int))
    }
}

/// The number a digit string denotes.
pub open spec fn spec_dec_digits(s: Seq<char>) -> int
    decreases s.len(),
{
    if s.len() == 0 {
        0
    } else {
        spec_dec_digits(s.drop_last()) * 10 + digit_val(s.last())
    }
}

pub open spec fn all_digits(s: Seq<char>) -> bool {
    forall|i: int| 0 <= i < s.len() ==> is_digit_char(#[trigger] s[i])
}

/// Decoding inverts the fixed-width encoding of any number that fits.
pub proof fn lemma_enc_dec(n: nat, w: nat)
    requires
        n < pow10(w),
    ensures
        spec_enc_nat(n, w).len() == w,
        all_digits(spec_enc_nat(n, w)),
        spec_dec_digits(spec_enc_nat(n, w)) == n,
    decreases w,
{
    if w == 0 {
    } else {
        let prefix = spec_enc_nat(n / 10, (w - 1) as nat);
        let out = prefix.push(spec_digit((n % 10) as int));
        assert(n / 10 < pow10((w - 1) as nat)) by {
            lemma_multiply_divide_lt(n as int, 10, pow10((w - 1) as nat));
        }
        lemma_enc_dec(n / 10, (w - 1) as nat);
        assert(out.drop_last() =~= prefix);
        assert(out.last() == spec_digit((n % 10) as int));
        assert(digit_val(spec_digit((n % 10) as int)) == n % 10);
        assert(all_digits(out)) by {
            assert(forall|i: int| 0 <= i < prefix.len() ==> out[i] == prefix[i]);
            assert(is_digit_char(spec_digit((n % 10) as int)));
        }
        assert(spec_dec_digits(out) == (n / 10) * 10 + n % 10);
    }
}

/// The length of the encoding, regardless of the value.
pub proof fn lemma_enc_len(n: nat, w: nat)
    ensures
        spec_enc_nat(n, w).len() == w,
    decreases w,
{
    if w > 0 {
        lemma_enc_len(n / 10, (w - 1) as nat);
    }
}

/// Append one decimal digit character.
pub(crate) fn push_digit(out: &mut String, d: u64)
    requires
        d < 10,
    ensures
        final(out)@ == old(out)@.push(spec_digit(d as int)),
{
    let ghost before = out@;
    if d == 0 {
        out.append("0");
    } else if d == 1 {
        out.append("1");
    } else if d == 2 {
        out.append("2");
    } else if d == 3 {
        out.append("3");
    } else if d == 4 {
        out.append("4");
    } else if d == 5 {
        out.append("5");
    } else if d == 6 {
        out.append("6");
    } else if d == 7 {
        out.append("7");
    } else if d == 8 {
        out.append("8");
    } else {
        out.append("9");
    }
    proof {
        reveal_strlit("0");
        reveal_strlit("1");
        reveal_strlit("2");
        reveal_strlit("3");
        reveal_strlit("4");
        reveal_strlit("5");
        reveal_strlit("6");
        reveal_strlit("7");
        reveal_strlit("8");
        reveal_strlit("9");
        assert(out@ =~= before.push(spec_digit(d as int)));
    }
}

/// Value of one decimal digit character.
fn char_digit(c: char) -> (r: Option<u64>)
    ensures
        r is Some <==> is_digit_char(c),
        r matches Some(v) ==> v == digit_val(c),
{
    match c {
        '0' => Some(0),
        '1' => Some(1),
        '2' => Some(2),
        '3' => Some(3),
        '4' => Some(4),
        '5' => Some(5),
        '6' => Some(6),
        '7' => Some(7),
        '8' => Some(8),
        '9' => Some(9),
        _ => None,
    }
}

/// Append `n` as exactly `NUM_WIDTH` decimal digits.
fn enc_nat_onto(out: &mut String, n: u64)
    ensures
        final(out)@ == old(out)@ + spec_enc_nat(n as nat, NUM_WIDTH as nat),
{
    proof {
        assert(pow10(19) == 10000000000000000000) by {
            reveal_with_fuel(pow10, 21);
        }
    }
    let ghost before = out@;
    let mut div: u64 = 10000000000000000000;
    let mut j: usize = 0;
    while j < NUM_WIDTH
        invariant
            j <= NUM_WIDTH,
            j < NUM_WIDTH ==> div == pow10((NUM_WIDTH - 1 - j) as nat),
            out@.len() == before.len() + j,
            forall|k: int| 0 <= k < before.len() ==> out@[k] == before[k],
            forall|k: int|
                0 <= k < j ==> out@[before.len() + k]
                    == spec_enc_nat(n as nat, NUM_WIDTH as nat)[k],
        decreases NUM_WIDTH - j,
    {
        proof {
            lemma_enc_nat_index(n as nat, NUM_WIDTH as nat, j as int);
            lemma_pow10_pos((NUM_WIDTH - 1 - j) as nat);
        }
        let d = (n / div) % 10;
        push_digit(out, d);
        if j < NUM_WIDTH - 1 {
            proof {
                assert(pow10((NUM_WIDTH - 1 - j) as nat) == 10 * pow10(
                    (NUM_WIDTH - 2 - j) as nat,
                ));
                assert(pow10((NUM_WIDTH - 2 - j) as nat) > 0) by {
                    lemma_pow10_pos((NUM_WIDTH - 2 - j) as nat);
                }
            }
            div = div / 10;
        }
        j = j + 1;
    }
    proof {
        lemma_enc_len(n as nat, NUM_WIDTH as nat);
        assert(out@ =~= before + spec_enc_nat(n as nat, NUM_WIDTH as nat));
    }
}

/// Ten to the anything is positive.
pub proof fn lemma_pow10_pos(k: nat)
    ensures
        pow10(k) > 0,
    decreases k,
{
    if k > 0 {
        lemma_pow10_pos((k - 1) as nat);
    }
}

/// Digit `j` of the fixed-width encoding, counted from the front, is the
/// corresponding decimal digit of the value.
pub proof fn lemma_enc_nat_index(n: nat, w: nat, j: int)
    requires
        0 <= j < w,
    ensures
        spec_enc_nat(n, w).len() == w,
        spec_enc_nat(n, w)[j] == spec_digit((n as int / pow10((w - 1 - j) as nat)) % 10),
    decreases w,
{
    lemma_enc_len(n, w);
    let prefix = spec_enc_nat(n / 10, (w - 1) as nat);
    if j == w - 1 {
        assert(pow10(0) == 1);
        assert(spec_enc_nat(n, w)[j] == spec_digit((n % 10) as int));
    } else {
        lemma_enc_nat_index(n / 10, (w - 1) as nat, j);
        assert(spec_enc_nat(n, w)[j] == prefix[j]);
        let k = (w - 2 - j) as nat;
        assert(pow10(k) > 0) by {
            lemma_pow10_pos(k);
        }
        assert((n / 10) as int / pow10(k) == n as int / pow10((k + 1) as nat)) by {
            lemma_div_denominator(n as int, 10, pow10(k));
        }
        assert((w - 1 - j) as nat == (k + 1) as nat);
    }
}

/// Read exactly `NUM_WIDTH` decimal digits at `pos`.
///
/// Returns the value and the position after the field; nothing is returned
/// when the input is too short, a character is not a digit, or the value
/// does not fit in a `u64`.
fn dec_nat(s: &str, pos: usize, total: usize) -> (r: Option<(u64, usize)>)
    requires
        total == s@.len(),
        pos <= total,
    ensures
        r is Some <==> (pos + NUM_WIDTH <= total && all_digits(
            s@.subrange(pos as int, pos + NUM_WIDTH),
        ) && spec_dec_digits(s@.subrange(pos as int, pos + NUM_WIDTH)) <= u64::MAX),
        r matches Some((v, p2)) ==> v == spec_dec_digits(
            s@.subrange(pos as int, pos + NUM_WIDTH),
        ) && p2 == pos + NUM_WIDTH,
{
    if total - pos < NUM_WIDTH {
        return None;
    }
    let ghost sub = s@.subrange(pos as int, pos + NUM_WIDTH);
    let mut acc: u128 = 0;
    let mut j: usize = 0;
    while j < NUM_WIDTH
        invariant
            total == s@.len(),
            pos + NUM_WIDTH <= total,
            sub == s@.subrange(pos as int, pos + NUM_WIDTH),
            j <= NUM_WIDTH,
            all_digits(sub.take(j as int)),
            acc == spec_dec_digits(sub.take(j as int)),
            acc < pow10(j as nat),
        decreases NUM_WIDTH - j,
    {
        let c = s.get_char(pos + j);
        proof {
            assert(c == sub[j as int]);
        }
        match char_digit(c) {
            None => {
                proof {
                    assert(!is_digit_char(sub[j as int]));
                }
                return None;
            },
            Some(d) => {
                proof {
                    assert(pow10(20) == 100000000000000000000) by {
                        reveal_with_fuel(pow10, 22);
                    }
                    lemma_pow10_le(j as nat, 19);
                    assert(sub.take(j as int + 1).drop_last() =~= sub.take(j as int));
                    assert(sub.take(j as int + 1).last() == sub[j as int]);
                    assert(forall|k: int|
                        0 <= k < j + 1 ==> sub.take(j as int + 1)[k] == sub[k]);
                }
                acc = acc * 10 + (d as u128);
            },
        }
        j = j + 1;
    }
    proof {
        assert(sub.take(NUM_WIDTH as int) =~= sub);
    }
    if acc > u64::MAX as u128 {
        return None;
    }
    Some((acc as u64, pos + NUM_WIDTH))
}

/// Powers of ten are monotone.
pub proof fn lemma_pow10_le(a: nat, b: nat)
    requires
        a <= b,
    ensures
        pow10(a) <= pow10(b),
    decreases b,
{
    if a < b {
        lemma_pow10_le(a, (b - 1) as nat);
        lemma_pow10_pos((b - 1) as nat);
    }
}

/// A string written as its character count then its characters.
pub open spec fn spec_enc_str(t: Seq<char>) -> Seq<char> {
    spec_enc_nat(t.len(), NUM_WIDTH as nat) + t
}

/// Encoding inverts decoding on any all-digit field.
pub proof fn lemma_dec_enc(ds: Seq<char>)
    requires
        all_digits(ds),
    ensures
        0 <= spec_dec_digits(ds) < pow10(ds.len()),
        spec_enc_nat(spec_dec_digits(ds) as nat, ds.len()) == ds,
    decreases ds.len(),
{
    if ds.len() == 0 {
    } else {
        assert(all_digits(ds.drop_last())) by {
            assert(forall|i: int| 0 <= i < ds.len() - 1 ==> ds.drop_last()[i] == ds[i]);
        }
        lemma_dec_enc(ds.drop_last());
        let v = spec_dec_digits(ds);
        let hd = spec_dec_digits(ds.drop_last());
        assert(is_digit_char(ds.last())) by {
            assert(ds[ds.len() - 1] == ds.last());
        }
        assert(0 <= digit_val(ds.last()) < 10);
        assert(v == hd * 10 + digit_val(ds.last()));
        assert(v < pow10(ds.len())) by {
            assert(pow10(ds.len()) == 10 * pow10((ds.len() - 1) as nat));
            assert(hd <= pow10((ds.len() - 1) as nat) - 1);
            assert(hd * 10 <= (pow10((ds.len() - 1) as nat) - 1) * 10) by (nonlinear_arith)
                requires
                    hd <= pow10((ds.len() - 1) as nat) - 1,
            ;
        }
        assert(v / 10 == hd && v % 10 == digit_val(ds.last())) by {
            assert(v == hd * 10 + digit_val(ds.last()));
            assert(0 <= digit_val(ds.last()) < 10);
        }
        assert(spec_digit(digit_val(ds.last())) == ds.last());
        assert(spec_enc_nat(v as nat, ds.len()) =~= ds);
    }
}

/// Append a length-prefixed string.
fn enc_str_onto(out: &mut String, t: &str)
    ensures
        final(out)@ == old(out)@ + spec_enc_str(t@),
{
    let ghost before = out@;
    let len = t.unicode_len();
    enc_nat_onto(out, len as u64);
    out.append(t);
    proof {
        assert(out@ =~= before + spec_enc_str(t@));
    }
}

/// The hypothesis that the input holds the encoding of string `t` at
/// position `pos`.
pub open spec fn enc_str_at(s: Seq<char>, pos: int, t: Seq<char>) -> bool {
    &&& 0 <= pos
    &&& pos + NUM_WIDTH + t.len() <= s.len()
    &&& s.subrange(pos, pos + NUM_WIDTH + t.len()) == spec_enc_str(t)
}

/// Read one length-prefixed string at `pos`.
fn dec_str(s: &str, pos: usize, total: usize) -> (r: Option<(String, usize)>)
    requires
        total == s@.len(),
        pos <= total,
    ensures
        r matches Some((v, p2)) ==> pos < p2 <= total,
        forall|t: Seq<char>|
            #[trigger] enc_str_at(s@, pos as int, t) ==> (r matches Some((v, p2)) && v@ == t && p2
                == pos + NUM_WIDTH + t.len()),
{
    proof {
        assert(s@.len() <= u64::MAX);
    }
    let len_field = match dec_nat(s, pos, total) {
        None => {
            proof {
                assert forall|t: Seq<char>| !enc_str_at(s@, pos as int, t) by {
                    if enc_str_at(s@, pos as int, t) {
                        lemma_str_at_gives_nat(s@, pos as int, t);
                    }
                }
            }
            return None;
        },
        Some(x) => x,
    };
    let (len64, p1) = len_field;
    if len64 > (total - p1) as u64 {
        proof {
            assert forall|t: Seq<char>| !enc_str_at(s@, pos as int, t) by {
                if enc_str_at(s@, pos as int, t) {
                    lemma_str_at_gives_nat(s@, pos as int, t);
                }
            }
        }
        return None;
    }
    let len = len64 as usize;
    let body = s.substring_char(p1, p1 + len);
    let v = String::from_str(body);
    proof {
        assert forall|t: Seq<char>| #[trigger] enc_str_at(s@, pos as int, t) implies (v@ == t
            && p1 + len == pos + NUM_WIDTH + t.len()) by {
            lemma_str_at_gives_nat(s@, pos as int, t);
            lemma_enc_len(t.len(), NUM_WIDTH as nat);
            assert(len64 == t.len());
            let whole = s@.subrange(pos as int, pos + NUM_WIDTH + t.len());
            assert(v@ =~= t) by {
                assert forall|i: int| 0 <= i < t.len() implies v@[i] == t[i] by {
                    assert(v@[i] == s@[p1 + i]);
                    assert(whole[NUM_WIDTH + i] == s@[pos + NUM_WIDTH + i]);
                    assert(whole[NUM_WIDTH + i] == spec_enc_str(t)[NUM_WIDTH + i]);
                    assert(spec_enc_str(t)[NUM_WIDTH + i] == t[i]);
                }
            }
        }
    }
    Some((v, p1 + len))
}

/// From the string-at hypothesis, the length field at `pos` parses to the
/// string's length.
proof fn lemma_str_at_gives_nat(s: Seq<char>, pos: int, t: Seq<char>)
    requires
        enc_str_at(s, pos, t),
        s.len() <= u64::MAX,
    ensures
        pos + NUM_WIDTH <= s.len(),
        all_digits(s.subrange(pos, pos + NUM_WIDTH)),
        spec_dec_digits(s.subrange(pos, pos + NUM_WIDTH)) == t.len(),
        t.len() <= u64::MAX,
{
    lemma_pow10_20_big();
    assert(t.len() <= u64::MAX);
    assert(t.len() < pow10(NUM_WIDTH as nat));
    lemma_enc_dec(t.len(), NUM_WIDTH as nat);
    assert(s.subrange(pos, pos + NUM_WIDTH) =~= spec_enc_nat(t.len(), NUM_WIDTH as nat)) by {
        assert(forall|i: int|
            0 <= i < NUM_WIDTH ==> #[trigger] s.subrange(pos, pos + NUM_WIDTH)[i] == s.subrange(
                pos,
                pos + NUM_WIDTH + t.len(),
            )[i]);
        lemma_enc_len(t.len(), NUM_WIDTH as nat);
    }
}

/// The numeric field is wide enough for any `u64`.
proof fn lemma_pow10_20_big()
    ensures
        pow10(NUM_WIDTH as nat) > u64::MAX,
{
    assert(pow10(20) == 100000000000000000000) by {
        reveal_with_fuel(pow10, 22);
    }
}

/// The concatenated encodings of a player list, in join order.
pub open spec fn spec_enc_players(ps: Seq<Seq<char>>) -> Seq<char>
    decreases ps.len(),
{
    if ps.len() == 0 {
        Seq::empty()
    } else {
        spec_enc_str(ps[0]) + spec_enc_players(ps.drop_first())
    }
}

/// The encoding of one queue: expiry hour and minute, join command,
/// player count, then the players in join order.
pub open spec fn spec_enc_queue(m: QueueModel) -> Seq<char> {
    spec_enc_nat(m.timeout.hour as nat, NUM_WIDTH as nat) + spec_enc_nat(
        m.timeout.minute as nat,
        NUM_WIDTH as nat,
    ) + spec_enc_str(m.add_cmd) + spec_enc_nat(m.players.len(), NUM_WIDTH as nat)
        + spec_enc_players(m.players)
}

/// The concatenated encodings of a chat's queues: identifier then queue.
pub open spec fn spec_enc_qentries(es: Seq<QueueEntry>) -> Seq<char>
    decreases es.len(),
{
    if es.len() == 0 {
        Seq::empty()
    } else {
        spec_enc_str(es[0].id@) + spec_enc_queue(es[0].queue.model()) + spec_enc_qentries(
            es.drop_first(),
        )
    }
}

/// The concatenated encodings of the chats: chat identifier, queue count,
/// then the queues.
pub open spec fn spec_enc_centries(es: Seq<ChatEntry>) -> Seq<char>
    decreases es.len(),
{
    if es.len() == 0 {
        Seq::empty()
    } else {
        spec_enc_nat(es[0].id.0 as u64 as nat, NUM_WIDTH as nat) + spec_enc_nat(
            es[0].chat.queues@.len(),
            NUM_WIDTH as nat,
        ) + spec_enc_qentries(es[0].chat.queues@) + spec_enc_centries(es.drop_first())
    }
}

/// The encoding of the whole state: chat count then the chats.
pub open spec fn spec_enc_state(s: State) -> Seq<char> {
    spec_enc_nat(s.chats@.len(), NUM_WIDTH as nat) + spec_enc_centries(s.chats@)
}

/// Appending one player extends the players encoding at its end.
pub proof fn lemma_enc_players_snoc(ps: Seq<Seq<char>>, x: Seq<char>)
    ensures
        spec_enc_players(ps.push(x)) == spec_enc_players(ps) + spec_enc_str(x),
    decreases ps.len(),
{
    if ps.len() == 0 {
        assert(ps.push(x)[0] == x);
        assert(ps.push(x).drop_first() =~= Seq::<Seq<char>>::empty());
        assert(spec_enc_players(ps.push(x).drop_first()) == Seq::<char>::empty());
        assert(spec_enc_players(ps.push(x)) == spec_enc_str(x) + Seq::<char>::empty());
        assert(spec_enc_players(ps.push(x)) =~= spec_enc_players(ps) + spec_enc_str(x));
    } else {
        assert(ps.push(x)[0] == ps[0]);
        assert(ps.push(x).drop_first() =~= ps.drop_first().push(x));
        lemma_enc_players_snoc(ps.drop_first(), x);
        assert(spec_enc_players(ps.push(x)) == spec_enc_str(ps[0]) + spec_enc_players(
            ps.drop_first().push(x),
        ));
        assert(spec_enc_players(ps.push(x)) =~= spec_enc_players(ps) + spec_enc_str(x));
    }
}

/// Appending one queue extends the queue-list encoding at its end.
pub proof fn lemma_enc_qentries_snoc(es: Seq<QueueEntry>, e: QueueEntry)
    ensures
        spec_enc_qentries(es.push(e)) == spec_enc_qentries(es) + spec_enc_str(e.id@)
            + spec_enc_queue(e.queue.model()),
    decreases es.len(),
{
    if es.len() == 0 {
        assert(es.push(e)[0] == e);
        assert(es.push(e).drop_first() =~= Seq::<QueueEntry>::empty());
        assert(spec_enc_qentries(es.push(e).drop_first()) == Seq::<char>::empty());
        assert(spec_enc_qentries(es.push(e)) == spec_enc_str(e.id@) + spec_enc_queue(
            e.queue.model(),
        ) + Seq::<char>::empty());
        assert(spec_enc_qentries(es.push(e)) =~= spec_enc_qentries(es) + spec_enc_str(e.id@)
            + spec_enc_queue(e.queue.model()));
    } else {
        assert(es.push(e)[0] == es[0]);
        assert(es.push(e).drop_first() =~= es.drop_first().push(e));
        lemma_enc_qentries_snoc(es.drop_first(), e);
        assert(spec_enc_qentries(es.push(e)) == spec_enc_str(es[0].id@) + spec_enc_queue(
            es[0].queue.model(),
        ) + spec_enc_qentries(es.drop_first().push(e)));
        assert(spec_enc_qentries(es.push(e)) =~= spec_enc_qentries(es) + spec_enc_str(e.id@)
            + spec_enc_queue(e.queue.model()));
    }
}

/// Appending one chat extends the chat-list encoding at its end.
pub proof fn lemma_enc_centries_snoc(es: Seq<ChatEntry>, e: ChatEntry)
    ensures
        spec_enc_centries(es.push(e)) == spec_enc_centries(es) + spec_enc_nat(
            e.id.0 as u64 as nat,
            NUM_WIDTH as nat,
        ) + spec_enc_nat(e.chat.queues@.len(), NUM_WIDTH as nat) + spec_enc_qentries(
            e.chat.queues@,
        ),
    decreases es.len(),
{
    if es.len() == 0 {
        assert(es.push(e)[0] == e);
        assert(es.push(e).drop_first() =~= Seq::<ChatEntry>::empty());
        assert(spec_enc_centries(es.push(e).drop_first()) == Seq::<char>::empty());
        assert(spec_enc_centries(es.push(e)) == spec_enc_nat(
            e.id.0 as u64 as nat,
            NUM_WIDTH as nat,
        ) + spec_enc_nat(e.chat.queues@.len(), NUM_WIDTH as nat) + spec_enc_qentries(
            e.chat.queues@,
        ) + Seq::<char>::empty());
        assert(spec_enc_centries(es.push(e)) =~= spec_enc_centries(es) + spec_enc_nat(
            e.id.0 as u64 as nat,
            NUM_WIDTH as nat,
        ) + spec_enc_nat(e.chat.queues@.len(), NUM_WIDTH as nat) + spec_enc_qentries(
            e.chat.queues@,
        ));
    } else {
        assert(es.push(e)[0] == es[0]);
        assert(es.push(e).drop_first() =~= es.drop_first().push(e));
        lemma_enc_centries_snoc(es.drop_first(), e);
        assert(spec_enc_centries(es.push(e)) == spec_enc_nat(
            es[0].id.0 as u64 as nat,
            NUM_WIDTH as nat,
        ) + spec_enc_nat(es[0].chat.queues@.len(), NUM_WIDTH as nat) + spec_enc_qentries(
            es[0].chat.queues@,
        ) + spec_enc_centries(es.drop_first().push(e)));
        assert(spec_enc_centries(es.push(e)) =~= spec_enc_centries(es) + spec_enc_nat(
            e.id.0 as u64 as nat,
            NUM_WIDTH as nat,
        ) + spec_enc_nat(e.chat.queues@.len(), NUM_WIDTH as nat) + spec_enc_qentries(
            e.chat.queues@,
        ));
    }
}

/// Append the encoding of one queue.
fn enc_queue_onto(out: &mut String, q: &Queue)
    ensures
        final(out)@ == old(out)@ + spec_enc_queue(q.model()),
{
    let ghost before = out@;
    let t = q.timeout();
    enc_nat_onto(out, t.hour as u64);
    enc_nat_onto(out, t.minute as u64);
    enc_str_onto(out, q.add_cmd().as_str());
    let players = q.players();
    enc_nat_onto(out, players.len() as u64);
    let ghost mid = out@;
    let n = players.len();
    let mut i: usize = 0;
    while i < n
        invariant
            n == players@.len(),
            n == q.players_view().len(),
            forall|k: int| 0 <= k < n ==> (#[trigger] players@[k])@ == q.players_view()[k],
            i <= n,
            out@ == mid + spec_enc_players(q.players_view().take(i as int)),
        decreases n - i,
    {
        let ghost taken = q.players_view().take(i as int);
        enc_str_onto(out, players[i].name());
        proof {
            lemma_enc_players_snoc(taken, q.players_view()[i as int]);
            assert(q.players_view().take(i as int + 1) =~= taken.push(
                q.players_view()[i as int],
            ));
            assert(out@ =~= mid + spec_enc_players(q.players_view().take(i as int + 1)));
        }
        i = i + 1;
    }
    proof {
        assert(q.players_view().take(n as int) =~= q.players_view());
        assert(out@ =~= before + spec_enc_queue(q.model()));
    }
}

/// Append the encoding of one chat entry.
fn enc_chat_entry_onto(out: &mut String, e: &ChatEntry)
    ensures
        final(out)@ == old(out)@ + spec_enc_nat(e.id.0 as u64 as nat, NUM_WIDTH as nat)
            + spec_enc_nat(e.chat.queues@.len(), NUM_WIDTH as nat) + spec_enc_qentries(
            e.chat.queues@,
        ),
{
    let ghost before = out@;
    enc_nat_onto(out, #[verifier::truncate] (e.id.0 as u64));
    enc_nat_onto(out, e.chat.queues.len() as u64);
    let ghost mid = out@;
    let n = e.chat.queues.len();
    let mut i: usize = 0;
    while i < n
        invariant
            n == e.chat.queues@.len(),
            i <= n,
            out@ == mid + spec_enc_qentries(e.chat.queues@.take(i as int)),
        decreases n - i,
    {
        let ghost taken = e.chat.queues@.take(i as int);
        let qe = &e.chat.queues[i];
        enc_str_onto(out, qe.id.text());
        enc_queue_onto(out, &qe.queue);
        proof {
            lemma_enc_qentries_snoc(taken, e.chat.queues@[i as int]);
            assert(e.chat.queues@.take(i as int + 1) =~= taken.push(e.chat.queues@[i as int]));
            assert(out@ =~= mid + spec_enc_qentries(e.chat.queues@.take(i as int + 1)));
        }
        i = i + 1;
    }
    proof {
        assert(e.chat.queues@.take(n as int) =~= e.chat.queues@);
        assert(out@ =~= before + spec_enc_nat(e.id.0 as u64 as nat, NUM_WIDTH as nat)
            + spec_enc_nat(e.chat.queues@.len(), NUM_WIDTH as nat) + spec_enc_qentries(
            e.chat.queues@,
        ));
    }
}

/// The whole state as one durable record.
pub fn encode_state(state: &State) -> (r: String)
    ensures
        r@ == spec_enc_state(*state),
{
    let mut out = String::new();
    enc_nat_onto(&mut out, state.chats.len() as u64);
    let ghost mid = out@;
    let n = state.chats.len();
    let mut i: usize = 0;
    while i < n
        invariant
            n == state.chats@.len(),
            i <= n,
            out@ == mid + spec_enc_centries(state.chats@.take(i as int)),
        decreases n - i,
    {
        let ghost taken = state.chats@.take(i as int);
        enc_chat_entry_onto(&mut out, &state.chats[i]);
        proof {
            lemma_enc_centries_snoc(taken, state.chats@[i as int]);
            assert(state.chats@.take(i as int + 1) =~= taken.push(state.chats@[i as int]));
            assert(out@ =~= mid + spec_enc_centries(state.chats@.take(i as int + 1)));
        }
        i = i + 1;
    }
    proof {
        assert(state.chats@.take(n as int) =~= state.chats@);
        assert(out@ =~= spec_enc_state(*state));
    }
    out
}

/// The hypothesis that the input holds the fragment `frag` at `pos`.
pub open spec fn enc_at(s: Seq<char>, pos: int, frag: Seq<char>) -> bool {
    &&& 0 <= pos
    &&& pos + frag.len() <= s.len()
    &&& s.subrange(pos, pos + frag.len()) == frag
}

/// A fragment made of two parts is each part in turn.
pub proof fn lemma_enc_at_split(s: Seq<char>, pos: int, a: Seq<char>, b: Seq<char>)
    requires
        enc_at(s, pos, a + b),
    ensures
        enc_at(s, pos, a),
        enc_at(s, pos + a.len(), b),
{
    let ab = a + b;
    assert(s.subrange(pos, pos + a.len()) =~= a) by {
        assert(forall|i: int|
            0 <= i < a.len() ==> s.subrange(pos, pos + ab.len())[i] == #[trigger] ab[i]);
        assert(forall|i: int| 0 <= i < a.len() ==> s[pos + i] == ab[i]);
    }
    assert forall|i: int| 0 <= i < b.len() implies s[pos + a.len() + i] == b[i] by {
        assert(s.subrange(pos, pos + ab.len())[a.len() + i] == s[pos + a.len() + i]);
        assert(ab[a.len() + i] == b[i]);
    }
    assert(s.subrange(pos + a.len(), pos + a.len() + b.len()) =~= b);
}

/// A string fragment satisfies the string-at hypothesis.
pub proof fn lemma_enc_at_str(s: Seq<char>, pos: int, t: Seq<char>)
    requires
        enc_at(s, pos, spec_enc_str(t)),
    ensures
        enc_str_at(s, pos, t),
{
    lemma_enc_len(t.len(), NUM_WIDTH as nat);
}

/// A numeric fragment parses to exactly its value.
pub proof fn lemma_enc_at_nat(s: Seq<char>, pos: int, n: nat)
    requires
        enc_at(s, pos, spec_enc_nat(n, NUM_WIDTH as nat)),
        n <= u64::MAX,
    ensures
        pos + NUM_WIDTH <= s.len(),
        all_digits(s.subrange(pos, pos + NUM_WIDTH)),
        spec_dec_digits(s.subrange(pos, pos + NUM_WIDTH)) == n,
{
    lemma_pow10_20_big();
    lemma_enc_dec(n, NUM_WIDTH as nat);
    assert(s.subrange(pos, pos + NUM_WIDTH) =~= spec_enc_nat(n, NUM_WIDTH as nat));
}

/// Each encoded player takes at least one numeric field of room.
pub proof fn lemma_enc_players_min_len(ps: Seq<Seq<char>>)
    ensures
        spec_enc_players(ps).len() >= NUM_WIDTH * ps.len(),
    decreases ps.len(),
{
    if ps.len() > 0 {
        lemma_enc_players_min_len(ps.drop_first());
        lemma_enc_len(ps[0].len(), NUM_WIDTH as nat);
    }
}

/// Read one queue at `pos`: expiry, join command, player count, players.
///
/// Rejects short or malformed input, an out-of-range time, a duplicate
/// player and an empty queue.
fn dec_queue(s: &str, pos: usize, total: usize) -> (r: Option<(Queue, usize)>)
    requires
        total == s@.len(),
        pos <= total,
    ensures
        r matches Some((q, p2)) ==> pos <= p2 <= total && q.wf() && q.players_view().len() > 0,
        forall|m: QueueModel|
            #[trigger] dec_queue_hyp(s@, pos as int, m) ==> (r matches Some((q, p2)) && q.model()
                == m && p2 == pos + spec_enc_queue(m).len()),
{
    proof {
        assert(s@.len() <= u64::MAX);
        assert forall|m: QueueModel| #[trigger] dec_queue_hyp(s@, pos as int, m) implies
            dec_queue_fields(s@, pos as int, m) by {
            lemma_dec_queue_fields(s@, pos as int, m);
        }
    }
    let (hour64, p1) = match dec_nat(s, pos, total) {
        None => {
            return None;
        },
        Some(x) => x,
    };
    if hour64 >= 24 {
        return None;
    }
    let (minute64, p2) = match dec_nat(s, p1, total) {
        None => {
            return None;
        },
        Some(x) => x,
    };
    if minute64 >= 60 {
        return None;
    }
    let (add_cmd, p3) = match dec_str(s, p2, total) {
        None => {
            return None;
        },
        Some(x) => x,
    };
    let (count64, p4) = match dec_nat(s, p3, total) {
        None => {
            return None;
        },
        Some(x) => x,
    };
    if count64 == 0 || count64 > (total - p4) as u64 {
        return None;
    }
    let count = count64 as usize;
    let mut q = Queue::new(QueueTime::new(hour64 as u8, minute64 as u8), add_cmd);
    let mut cur = p4;
    let mut k: usize = 0;
    proof {
        assert forall|m: QueueModel| #[trigger] dec_queue_hyp(s@, pos as int, m) implies (count
            == m.players.len() && p4 == pos + 3 * NUM_WIDTH + spec_enc_str(m.add_cmd).len()
            && q.spec_timeout() == m.timeout && q.spec_add_cmd() == m.add_cmd && q.players_view()
            == m.players.take(0) && cur == p4 + spec_enc_players(m.players.take(0)).len()
            && enc_at(s@, cur as int, spec_enc_players(m.players.skip(0)))) by {
            assert(dec_queue_fields(s@, pos as int, m));
            assert(hour64 == m.timeout.hour);
            assert(minute64 == m.timeout.minute);
            assert(add_cmd@ == m.add_cmd && p3 == p2 + NUM_WIDTH + m.add_cmd.len());
            assert(count64 == m.players.len());
            assert(q.spec_timeout() == m.timeout);
            assert(m.players.take(0) =~= Seq::<Seq<char>>::empty());
            assert(q.players_view() == m.players.take(0));
            assert(spec_enc_players(m.players.take(0)) == Seq::<char>::empty());
            assert(m.players.skip(0) =~= m.players);
        }
    }
    while k < count
        invariant
            total == s@.len(),
            s@.len() <= u64::MAX,
            pos <= p4 <= cur <= total,
            k <= count,
            q.wf(),
            q.players_view().len() == k,
            forall|m: QueueModel|
                #[trigger] dec_queue_hyp(s@, pos as int, m) ==> (dec_queue_fields(s@, pos as int, m)
                    && count == m.players.len() && p4 == pos + 3 * NUM_WIDTH + spec_enc_str(
                    m.add_cmd,
                ).len() && q.spec_timeout() == m.timeout && q.spec_add_cmd() == m.add_cmd
                    && q.players_view() == m.players.take(k as int) && cur == p4
                    + spec_enc_players(m.players.take(k as int)).len() && enc_at(
                    s@,
                    cur as int,
                    spec_enc_players(m.players.skip(k as int)),
                )),
        decreases count - k,
    {
        let ghost cur0 = cur as int;
        proof {
            assert forall|m: QueueModel| #[trigger] dec_queue_hyp(s@, pos as int, m) implies
                enc_str_at(s@, cur0, m.players[k as int]) by {
                let rest = m.players.skip(k as int);
                assert(rest.len() > 0);
                assert(spec_enc_players(rest) == spec_enc_str(rest[0]) + spec_enc_players(
                    rest.drop_first(),
                ));
                lemma_enc_at_split(
                    s@,
                    cur0,
                    spec_enc_str(rest[0]),
                    spec_enc_players(rest.drop_first()),
                );
                lemma_enc_at_str(s@, cur0, rest[0]);
                assert(rest[0] == m.players[k as int]);
            }
        }
        let (name, cur2) = match dec_str(s, cur, total) {
            None => {
                return None;
            },
            Some(x) => x,
        };
        let player = Username::new(name);
        if q.has_player(&player) {
            proof {
                assert forall|m: QueueModel| !dec_queue_hyp(s@, pos as int, m) by {
                    if dec_queue_hyp(s@, pos as int, m) {
                        assert(q.players_view() == m.players.take(k as int));
                        assert(q.players_view().contains(player@));
                        let x = choose|x: int|
                            0 <= x < k && m.players.take(k as int)[x] == player@;
                        assert(m.players[x] == m.players[k as int]);
                    }
                }
            }
            return None;
        }
        q.insert_player(player);
        proof {
            assert forall|m: QueueModel| #[trigger] dec_queue_hyp(s@, pos as int, m) implies (
                q.players_view() == m.players.take(k as int + 1) && cur2 == p4 + spec_enc_players(
                    m.players.take(k as int + 1),
                ).len() && enc_at(
                s@,
                cur2 as int,
                spec_enc_players(m.players.skip(k as int + 1)),
            )) by {
                let rest = m.players.skip(k as int);
                assert(spec_enc_players(rest) == spec_enc_str(rest[0]) + spec_enc_players(
                    rest.drop_first(),
                ));
                lemma_enc_at_split(
                    s@,
                    cur0,
                    spec_enc_str(rest[0]),
                    spec_enc_players(rest.drop_first()),
                );
                assert(name@ == m.players[k as int]);
                assert(q.players_view() =~= m.players.take(k as int + 1)) by {
                    assert(q.players_view() == m.players.take(k as int).push(
                        m.players[k as int],
                    ));
                }
                assert(rest.drop_first() =~= m.players.skip(k as int + 1));
                lemma_enc_players_snoc(m.players.take(k as int), m.players[k as int]);
                assert(m.players.take(k as int).push(m.players[k as int]) =~= m.players.take(
                    k as int + 1,
                ));
                lemma_enc_len(m.players[k as int].len(), NUM_WIDTH as nat);
            }
        }
        cur = cur2;
        k = k + 1;
    }
    proof {
        assert forall|m: QueueModel| #[trigger] dec_queue_hyp(s@, pos as int, m) implies (q.model()
            == m && cur == pos + spec_enc_queue(m).len()) by {
            assert(m.players.take(count as int) =~= m.players);
            assert(q.players_view() == m.players);
            assert(q.model() == (QueueModel {
                players: m.players,
                timeout: m.timeout,
                add_cmd: m.add_cmd,
            }));
            assert((QueueModel { players: m.players, timeout: m.timeout, add_cmd: m.add_cmd })
                == m);
            lemma_enc_len(m.timeout.hour as nat, NUM_WIDTH as nat);
            lemma_enc_len(m.timeout.minute as nat, NUM_WIDTH as nat);
            lemma_enc_len(m.add_cmd.len(), NUM_WIDTH as nat);
            lemma_enc_len(m.players.len(), NUM_WIDTH as nat);
        }
    }
    Some((q, cur))
}

/// The hypothesis that one well-formed, non-empty queue is encoded at
/// `pos`.
pub open spec fn dec_queue_hyp(s: Seq<char>, pos: int, m: QueueModel) -> bool {
    &&& enc_at(s, pos, spec_enc_queue(m))
    &&& queue_model_wf(m)
    &&& m.players.len() > 0
}

/// The field facts that follow from the queue hypothesis: every numeric
/// and string field parses to the model's value.
pub open spec fn dec_queue_fields(s: Seq<char>, pos: int, m: QueueModel) -> bool {
    &&& pos + 3 * NUM_WIDTH + spec_enc_str(m.add_cmd).len() + spec_enc_players(m.players).len()
        <= s.len()
    &&& all_digits(s.subrange(pos, pos + NUM_WIDTH))
    &&& spec_dec_digits(s.subrange(pos, pos + NUM_WIDTH)) == m.timeout.hour
    &&& all_digits(s.subrange(pos + NUM_WIDTH, pos + 2 * NUM_WIDTH))
    &&& spec_dec_digits(s.subrange(pos + NUM_WIDTH, pos + 2 * NUM_WIDTH)) == m.timeout.minute
    &&& enc_str_at(s, pos + 2 * NUM_WIDTH, m.add_cmd)
    &&& all_digits(
        s.subrange(
            pos + 2 * NUM_WIDTH + NUM_WIDTH + m.add_cmd.len(),
            pos + 3 * NUM_WIDTH + NUM_WIDTH + m.add_cmd.len(),
        ),
    )
    &&& spec_dec_digits(
        s.subrange(
            pos + 2 * NUM_WIDTH + NUM_WIDTH + m.add_cmd.len(),
            pos + 3 * NUM_WIDTH + NUM_WIDTH + m.add_cmd.len(),
        ),
    ) == m.players.len()
    &&& m.players.len() <= u64::MAX
    &&& enc_at(
        s,
        pos + 3 * NUM_WIDTH + NUM_WIDTH + m.add_cmd.len(),
        spec_enc_players(m.players),
    )
    &&& spec_enc_players(m.players).len() >= NUM_WIDTH * m.players.len()
}

/// Derive the field facts from the queue hypothesis.
proof fn lemma_dec_queue_fields(s: Seq<char>, pos: int, m: QueueModel)
    requires
        dec_queue_hyp(s, pos, m),
        s.len() <= u64::MAX,
    ensures
        dec_queue_fields(s, pos, m),
{
    let h = spec_enc_nat(m.timeout.hour as nat, NUM_WIDTH as nat);
    let mi = spec_enc_nat(m.timeout.minute as nat, NUM_WIDTH as nat);
    let ac = spec_enc_str(m.add_cmd);
    let cnt = spec_enc_nat(m.players.len(), NUM_WIDTH as nat);
    let pl = spec_enc_players(m.players);
    lemma_enc_len(m.timeout.hour as nat, NUM_WIDTH as nat);
    lemma_enc_len(m.timeout.minute as nat, NUM_WIDTH as nat);
    lemma_enc_len(m.add_cmd.len(), NUM_WIDTH as nat);
    lemma_enc_len(m.players.len(), NUM_WIDTH as nat);
    lemma_enc_players_min_len(m.players);
    assert(spec_enc_queue(m) == h + mi + ac + cnt + pl);
    assert(h + mi + ac + cnt + pl =~= h + (mi + (ac + (cnt + pl))));
    lemma_enc_at_split(s, pos, h, mi + (ac + (cnt + pl)));
    lemma_enc_at_split(s, pos + NUM_WIDTH, mi, ac + (cnt + pl));
    lemma_enc_at_split(s, pos + 2 * NUM_WIDTH, ac, cnt + pl);
    lemma_enc_at_split(s, pos + 2 * NUM_WIDTH + ac.len(), cnt, pl);
    lemma_enc_at_nat(s, pos, m.timeout.hour as nat);
    lemma_enc_at_nat(s, pos + NUM_WIDTH, m.timeout.minute as nat);
    lemma_enc_at_str(s, pos + 2 * NUM_WIDTH, m.add_cmd);
    assert(m.players.len() <= u64::MAX);
    lemma_enc_at_nat(s, pos + 2 * NUM_WIDTH + ac.len(), m.players.len());
}

/// The encoding of one queue entry: identifier then queue.
pub open spec fn spec_enc_qentry(e: QueueEntry) -> Seq<char> {
    spec_enc_str(e.id@) + spec_enc_queue(e.queue.model())
}

/// The encoding of one chat entry: identifier, queue count, queues.
pub open spec fn spec_enc_centry(e: ChatEntry) -> Seq<char> {
    spec_enc_nat(e.id.0 as u64 as nat, NUM_WIDTH as nat) + spec_enc_nat(
        e.chat.queues@.len(),
        NUM_WIDTH as nat,
    ) + spec_enc_qentries(e.chat.queues@)
}

/// Each encoded queue takes at least one numeric field of room.
pub proof fn lemma_enc_qentries_min_len(es: Seq<QueueEntry>)
    ensures
        spec_enc_qentries(es).len() >= NUM_WIDTH * es.len(),
    decreases es.len(),
{
    if es.len() > 0 {
        lemma_enc_qentries_min_len(es.drop_first());
        lemma_enc_len(es[0].id@.len(), NUM_WIDTH as nat);
    }
}

/// Each encoded chat takes at least one numeric field of room.
pub proof fn lemma_enc_centries_min_len(es: Seq<ChatEntry>)
    ensures
        spec_enc_centries(es).len() >= NUM_WIDTH * es.len(),
    decreases es.len(),
{
    if es.len() > 0 {
        lemma_enc_centries_min_len(es.drop_first());
        lemma_enc_len(es[0].id.0 as u64 as nat, NUM_WIDTH as nat);
        lemma_enc_len(es[0].chat.queues@.len(), NUM_WIDTH as nat);
    }
}

/// Casting a chat identifier out and back loses nothing.
proof fn lemma_chat_id_cast(x: i64)
    ensures
        ((x as u64) as i64) == x,
{
    assert((x as u64) as i64 == x) by (bit_vector);
}

/// The hypothesis that one well-formed queue entry is encoded at `pos`.
pub open spec fn dec_qentry_hyp(s: Seq<char>, pos: int, e: QueueEntry) -> bool {
    &&& enc_at(s, pos, spec_enc_qentry(e))
    &&& queue_entry_wf(e)
}

/// Read one queue entry at `pos`: identifier then queue.  A full instant
/// queue is rejected: it can never be stored.
fn dec_queue_entry(s: &str, pos: usize, total: usize) -> (r: Option<(QueueEntry, usize)>)
    requires
        total == s@.len(),
        pos <= total,
    ensures
        r matches Some((qe, p2)) ==> pos < p2 <= total && queue_entry_wf(qe),
        forall|e: QueueEntry|
            #[trigger] dec_qentry_hyp(s@, pos as int, e) ==> (r matches Some((qe, p2)) && qe.id@
                == e.id@ && qe.queue.model() == e.queue.model() && p2 == pos + spec_enc_qentry(
                e,
            ).len()),
{
    proof {
        assert(s@.len() <= u64::MAX);
        assert forall|e: QueueEntry| #[trigger] dec_qentry_hyp(s@, pos as int, e) implies (
            enc_str_at(s@, pos as int, e.id@) && dec_queue_hyp(
            s@,
            pos + NUM_WIDTH + e.id@.len(),
            e.queue.model(),
        )) by {
            lemma_enc_at_split(
                s@,
                pos as int,
                spec_enc_str(e.id@),
                spec_enc_queue(e.queue.model()),
            );
            lemma_enc_at_str(s@, pos as int, e.id@);
            lemma_enc_len(e.id@.len(), NUM_WIDTH as nat);
        }
    }
    let (id_str, p1) = match dec_str(s, pos, total) {
        None => {
            return None;
        },
        Some(x) => x,
    };
    let (queue, p2) = match dec_queue(s, p1, total) {
        None => {
            return None;
        },
        Some(x) => x,
    };
    let id = QueueId::new(id_str);
    if id.is_instant_queue() && queue.num_players() >= QUEUE_SIZE {
        return None;
    }
    proof {
        assert forall|e: QueueEntry| #[trigger] dec_qentry_hyp(s@, pos as int, e) implies (id@
            == e.id@ && queue.model() == e.queue.model() && p2 == pos + spec_enc_qentry(
            e,
        ).len()) by {
            lemma_enc_len(e.id@.len(), NUM_WIDTH as nat);
        }
    }
    Some((QueueEntry { id, queue }, p2))
}

/// The hypothesis that one well-formed chat entry is encoded at `pos`.
pub open spec fn dec_centry_hyp(s: Seq<char>, pos: int, e: ChatEntry) -> bool {
    &&& enc_at(s, pos, spec_enc_centry(e))
    &&& e.chat.wf()
}

/// Read one chat entry at `pos`: identifier, queue count, queues.
/// Rejects a duplicate queue identifier within the chat.
fn dec_chat_entry(s: &str, pos: usize, total: usize) -> (r: Option<(ChatEntry, usize)>)
    requires
        total == s@.len(),
        pos <= total,
    ensures
        r matches Some((ce, p2)) ==> pos < p2 <= total && ce.chat.wf(),
        forall|e: ChatEntry|
            #[trigger] dec_centry_hyp(s@, pos as int, e) ==> (r matches Some((ce, p2)) && ce.id
                == e.id && queues_similar(e.chat.queues@, ce.chat.queues@) && p2 == pos
                + spec_enc_centry(e).len()),
{
    proof {
        assert(s@.len() <= u64::MAX);
        assert forall|e: ChatEntry| #[trigger] dec_centry_hyp(s@, pos as int, e) implies (
            dec_centry_fields(s@, pos as int, e)) by {
            lemma_dec_centry_fields(s@, pos as int, e);
        }
    }
    let (id64, p1) = match dec_nat(s, pos, total) {
        None => {
            return None;
        },
        Some(x) => x,
    };
    let (cnt64, p2) = match dec_nat(s, p1, total) {
        None => {
            return None;
        },
        Some(x) => x,
    };
    if cnt64 > (total - p2) as u64 {
        return None;
    }
    let cnt = cnt64 as usize;
    let id = ChatId(#[verifier::truncate] (id64 as i64));
    let mut chat = Chat::new();
    let mut cur = p2;
    let mut k: usize = 0;
    proof {
        assert forall|e: ChatEntry| #[trigger] dec_centry_hyp(s@, pos as int, e) implies (id
            == e.id && cnt == e.chat.queues@.len() && chat_prefix_ok(
            chat,
            e,
            0,
        ) && cur == p2 + spec_enc_qentries(e.chat.queues@.take(0)).len() && enc_at(
            s@,
            cur as int,
            spec_enc_qentries(e.chat.queues@.skip(0)),
        )) by {
            lemma_chat_id_cast(e.id.0);
            assert(e.chat.queues@.take(0) =~= Seq::<QueueEntry>::empty());
            assert(spec_enc_qentries(e.chat.queues@.take(0)) == Seq::<char>::empty());
            assert(e.chat.queues@.skip(0) =~= e.chat.queues@);
        }
    }
    while k < cnt
        invariant
            total == s@.len(),
            s@.len() <= u64::MAX,
            pos <= p2 <= cur <= total,
            k <= cnt,
            chat.wf(),
            chat.queues@.len() == k,
            forall|e: ChatEntry|
                #[trigger] dec_centry_hyp(s@, pos as int, e) ==> (id == e.id && cnt
                    == e.chat.queues@.len() && chat_prefix_ok(chat, e, k as int) && cur == p2
                    + spec_enc_qentries(e.chat.queues@.take(k as int)).len() && enc_at(
                    s@,
                    cur as int,
                    spec_enc_qentries(e.chat.queues@.skip(k as int)),
                )),
        decreases cnt - k,
    {
        let ghost cur0 = cur as int;
        let ghost chat_prev = chat;
        proof {
            assert forall|e: ChatEntry| #[trigger] dec_centry_hyp(s@, pos as int, e) implies
                dec_qentry_hyp(s@, cur0, e.chat.queues@[k as int]) by {
                let rest = e.chat.queues@.skip(k as int);
                assert(rest.len() > 0);
                assert(spec_enc_qentries(rest) == spec_enc_str(rest[0].id@) + spec_enc_queue(
                    rest[0].queue.model(),
                ) + spec_enc_qentries(rest.drop_first()));
                lemma_enc_at_split(
                    s@,
                    cur0,
                    spec_enc_qentry(rest[0]),
                    spec_enc_qentries(rest.drop_first()),
                );
                assert(rest[0] == e.chat.queues@[k as int]);
                assert(queue_entry_wf(rest[0]));
            }
        }
        let (qe, cur2) = match dec_queue_entry(s, cur, total) {
            None => {
                return None;
            },
            Some(x) => x,
        };
        if let Some(_dup) = chat.find_queue(&qe.id) {
            proof {
                assert forall|e: ChatEntry| !dec_centry_hyp(s@, pos as int, e) by {
                    if dec_centry_hyp(s@, pos as int, e) {
                        let x = choose|x: int|
                            0 <= x < chat.queues@.len() && chat.queues@[x].id@ == qe.id@;
                        assert(chat.queues@[x].id@ == e.chat.queues@[x].id@);
                        assert(qe.id@ == e.chat.queues@[k as int].id@);
                        assert(e.chat.queues@[x].id@ != e.chat.queues@[k as int].id@);
                    }
                }
            }
            return None;
        }
        let ghost qeg = qe;
        chat.queues.push(qe);
        proof {
            assert(chat.wf()) by {
                assert(forall|x: int|
                    0 <= x < chat_prev.queues@.len() ==> chat.queues@[x] == chat_prev.queues@[x]);
                assert(chat.queues@[chat.queues@.len() - 1] == qeg);
                assert(!has_queue_id(chat_prev.queues@, qeg.id@));
                assert forall|a: int, b: int|
                    0 <= a < b < chat.queues@.len() implies chat.queues@[a].id@
                    != chat.queues@[b].id@ by {
                    if b == chat.queues@.len() - 1 {
                        if chat.queues@[a].id@ == qeg.id@ {
                            assert(has_queue_id(chat_prev.queues@, qeg.id@));
                        }
                    }
                }
            }
            assert forall|e: ChatEntry| #[trigger] dec_centry_hyp(s@, pos as int, e) implies (
                chat_prefix_ok(chat, e, k as int + 1) && cur2 == p2 + spec_enc_qentries(
                e.chat.queues@.take(k as int + 1),
            ).len() && enc_at(
                s@,
                cur2 as int,
                spec_enc_qentries(e.chat.queues@.skip(k as int + 1)),
            )) by {
                let rest = e.chat.queues@.skip(k as int);
                assert(spec_enc_qentries(rest) == spec_enc_str(rest[0].id@) + spec_enc_queue(
                    rest[0].queue.model(),
                ) + spec_enc_qentries(rest.drop_first()));
                lemma_enc_at_split(
                    s@,
                    cur0,
                    spec_enc_qentry(rest[0]),
                    spec_enc_qentries(rest.drop_first()),
                );
                assert(rest[0] == e.chat.queues@[k as int]);
                assert(rest.drop_first() =~= e.chat.queues@.skip(k as int + 1));
                lemma_enc_qentries_snoc(e.chat.queues@.take(k as int), e.chat.queues@[k as int]);
                assert(e.chat.queues@.take(k as int).push(e.chat.queues@[k as int])
                    =~= e.chat.queues@.take(k as int + 1));
                assert(forall|x: int|
                    0 <= x < chat_prev.queues@.len() ==> chat.queues@[x] == chat_prev.queues@[x]);
            }
        }
        cur = cur2;
        k = k + 1;
    }
    proof {
        assert forall|e: ChatEntry| #[trigger] dec_centry_hyp(s@, pos as int, e) implies (
            queues_similar(e.chat.queues@, chat.queues@) && cur == pos + spec_enc_centry(
            e,
        ).len()) by {
            assert(e.chat.queues@.take(cnt as int) =~= e.chat.queues@);
            lemma_enc_len(e.id.0 as u64 as nat, NUM_WIDTH as nat);
            lemma_enc_len(e.chat.queues@.len(), NUM_WIDTH as nat);
        }
    }
    Some((ChatEntry { id, chat }, cur))
}

/// The chat built so far matches the first `k` queues of the hypothesis.
pub open spec fn chat_prefix_ok(chat: Chat, e: ChatEntry, k: int) -> bool {
    &&& chat.queues@.len() == k
    &&& k <= e.chat.queues@.len()
    &&& forall|x: int|
        0 <= x < k ==> (#[trigger] chat.queues@[x]).id@ == e.chat.queues@[x].id@
            && chat.queues@[x].queue.model() == e.chat.queues@[x].queue.model()
}

/// The field facts that follow from the chat-entry hypothesis.
pub open spec fn dec_centry_fields(s: Seq<char>, pos: int, e: ChatEntry) -> bool {
    &&& pos + 2 * NUM_WIDTH + spec_enc_qentries(e.chat.queues@).len() <= s.len()
    &&& all_digits(s.subrange(pos, pos + NUM_WIDTH))
    &&& spec_dec_digits(s.subrange(pos, pos + NUM_WIDTH)) == e.id.0 as u64
    &&& all_digits(s.subrange(pos + NUM_WIDTH, pos + 2 * NUM_WIDTH))
    &&& spec_dec_digits(s.subrange(pos + NUM_WIDTH, pos + 2 * NUM_WIDTH))
        == e.chat.queues@.len()
    &&& enc_at(s, pos + 2 * NUM_WIDTH, spec_enc_qentries(e.chat.queues@))
    &&& spec_enc_qentries(e.chat.queues@).len() >= NUM_WIDTH * e.chat.queues@.len()
    &&& e.chat.queues@.len() <= u64::MAX
}

/// Derive the field facts from the chat-entry hypothesis.
proof fn lemma_dec_centry_fields(s: Seq<char>, pos: int, e: ChatEntry)
    requires
        dec_centry_hyp(s, pos, e),
        s.len() <= u64::MAX,
    ensures
        dec_centry_fields(s, pos, e),
{
    let a = spec_enc_nat(e.id.0 as u64 as nat, NUM_WIDTH as nat);
    let b = spec_enc_nat(e.chat.queues@.len(), NUM_WIDTH as nat);
    let c = spec_enc_qentries(e.chat.queues@);
    lemma_enc_len(e.id.0 as u64 as nat, NUM_WIDTH as nat);
    lemma_enc_len(e.chat.queues@.len(), NUM_WIDTH as nat);
    lemma_enc_qentries_min_len(e.chat.queues@);
    assert(spec_enc_centry(e) == a + b + c);
    assert(a + b + c =~= a + (b + c));
    lemma_enc_at_split(s, pos, a, b + c);
    lemma_enc_at_split(s, pos + NUM_WIDTH, b, c);
    lemma_enc_at_nat(s, pos, e.id.0 as u64 as nat);
    lemma_enc_at_nat(s, pos + NUM_WIDTH, e.chat.queues@.len());
}

/// The state built so far matches the first `k` chats of the hypothesis.
pub open spec fn state_prefix_ok(chats: Seq<ChatEntry>, st2: State, k: int) -> bool {
    &&& chats.len() == k
    &&& k <= st2.chats@.len()
    &&& forall|x: int|
        0 <= x < k ==> (#[trigger] chats[x]).id == st2.chats@[x].id && queues_similar(
            st2.chats@[x].chat.queues@,
            chats[x].chat.queues@,
        )
}

/// Whether some already-decoded chat uses the identifier.
fn chats_have_id(chats: &Vec<ChatEntry>, id: i64) -> (r: bool)
    ensures
        r == has_chat_id(chats@, id),
{
    let n = chats.len();
    let mut i: usize = 0;
    while i < n
        invariant
            n == chats@.len(),
            i <= n,
            forall|k: int| 0 <= k < i ==> chats@[k].id.0 != id,
        decreases n - i,
    {
        if chats[i].id.0 == id {
            return true;
        }
        i = i + 1;
    }
    false
}

/// Read a whole durable record back into a state.
///
/// Succeeds exactly on records this crate writes: a record produced by
/// `encode_state` from any well-formed state always decodes, to an
/// equivalent state; a corrupt record — short, trailing text, duplicate
/// identifiers, out-of-range time, duplicate player, empty queue, full
/// instant queue — is rejected outright.
pub fn decode_state(s: &str) -> (r: Option<State>)
    ensures
        r matches Some(st) ==> st.wf(),
        forall|st2: State|
            (st2.wf() && s@ == spec_enc_state(st2)) ==> (r matches Some(st) && states_similar(
                st2,
                st,
            )),
{
    let total = s.unicode_len();
    proof {
        assert(s@.len() <= u64::MAX);
        assert forall|st2: State| (st2.wf() && s@ == spec_enc_state(st2)) implies (enc_at(
            s@,
            0,
            spec_enc_state(st2),
        ) && all_digits(s@.subrange(0, NUM_WIDTH as int)) && spec_dec_digits(
            s@.subrange(0, NUM_WIDTH as int),
        ) == st2.chats@.len() && st2.chats@.len() <= u64::MAX && spec_enc_centries(
            st2.chats@,
        ).len() >= NUM_WIDTH * st2.chats@.len() && enc_at(
            s@,
            NUM_WIDTH as int,
            spec_enc_centries(st2.chats@),
        )) by {
            assert(s@.subrange(0, s@.len() as int) =~= s@);
            lemma_enc_len(st2.chats@.len(), NUM_WIDTH as nat);
            lemma_enc_centries_min_len(st2.chats@);
            lemma_enc_at_split(
                s@,
                0,
                spec_enc_nat(st2.chats@.len(), NUM_WIDTH as nat),
                spec_enc_centries(st2.chats@),
            );
            lemma_enc_at_nat(s@, 0, st2.chats@.len());
        }
    }
    let (cnt64, p1) = match dec_nat(s, 0, total) {
        None => {
            return None;
        },
        Some(x) => x,
    };
    if cnt64 > (total - p1) as u64 {
        return None;
    }
    let cnt = cnt64 as usize;
    let mut chats: Vec<ChatEntry> = Vec::new();
    let mut cur = p1;
    let mut k: usize = 0;
    proof {
        assert forall|st2: State| (st2.wf() && s@ == spec_enc_state(st2)) implies (cnt
            == st2.chats@.len() && state_prefix_ok(chats@, st2, 0) && cur == p1
            + spec_enc_centries(st2.chats@.take(0)).len() && enc_at(
            s@,
            cur as int,
            spec_enc_centries(st2.chats@.skip(0)),
        )) by {
            assert(st2.chats@.take(0) =~= Seq::<ChatEntry>::empty());
            assert(spec_enc_centries(st2.chats@.take(0)) == Seq::<char>::empty());
            assert(st2.chats@.skip(0) =~= st2.chats@);
        }
    }
    while k < cnt
        invariant
            total == s@.len(),
            s@.len() <= u64::MAX,
            p1 <= cur <= total,
            k <= cnt,
            chats@.len() == k,
            crate::state::distinct_chat_ids(chats@),
            forall|x: int| 0 <= x < k ==> (#[trigger] chats@[x]).chat.wf(),
            forall|st2: State|
                (st2.wf() && s@ == spec_enc_state(st2)) ==> (cnt == st2.chats@.len()
                    && state_prefix_ok(chats@, st2, k as int) && cur == p1 + spec_enc_centries(
                    st2.chats@.take(k as int),
                ).len() && enc_at(
                    s@,
                    cur as int,
                    spec_enc_centries(st2.chats@.skip(k as int)),
                )),
        decreases cnt - k,
    {
        let ghost cur0 = cur as int;
        let ghost chats_prev = chats@;
        proof {
            assert forall|st2: State| (st2.wf() && s@ == spec_enc_state(st2)) implies
                dec_centry_hyp(s@, cur0, st2.chats@[k as int]) by {
                let rest = st2.chats@.skip(k as int);
                assert(rest.len() > 0);
                assert(spec_enc_centries(rest) == spec_enc_nat(
                    rest[0].id.0 as u64 as nat,
                    NUM_WIDTH as nat,
                ) + spec_enc_nat(rest[0].chat.queues@.len(), NUM_WIDTH as nat)
                    + spec_enc_qentries(rest[0].chat.queues@) + spec_enc_centries(
                    rest.drop_first(),
                ));
                lemma_enc_at_split(
                    s@,
                    cur0,
                    spec_enc_centry(rest[0]),
                    spec_enc_centries(rest.drop_first()),
                );
                assert(rest[0] == st2.chats@[k as int]);
                assert(st2.chats@[k as int].chat.wf());
            }
        }
        let (ce, cur2) = match dec_chat_entry(s, cur, total) {
            None => {
                return None;
            },
            Some(x) => x,
        };
        if chats_have_id(&chats, ce.id.0) {
            proof {
                assert forall|st2: State| !(st2.wf() && s@ == spec_enc_state(st2)) by {
                    if st2.wf() && s@ == spec_enc_state(st2) {
                        let x = choose|x: int| 0 <= x < chats@.len() && chats@[x].id.0 == ce.id.0;
                        assert(chats@[x].id == st2.chats@[x].id);
                        assert(ce.id == st2.chats@[k as int].id);
                        assert(st2.chats@[x].id.0 != st2.chats@[k as int].id.0);
                    }
                }
            }
            return None;
        }
        let ghost ceg = ce;
        chats.push(ce);
        proof {
            assert(crate::state::distinct_chat_ids(chats@)) by {
                assert(forall|x: int|
                    0 <= x < chats_prev.len() ==> chats@[x] == chats_prev[x]);
                assert(chats@[chats@.len() - 1] == ceg);
                assert forall|a: int, b: int|
                    0 <= a < b < chats@.len() implies chats@[a].id.0 != chats@[b].id.0 by {
                    if b == chats@.len() - 1 {
                        if chats@[a].id.0 == ceg.id.0 {
                            assert(has_chat_id(chats_prev, ceg.id.0));
                        }
                    }
                }
            }
            assert forall|st2: State| (st2.wf() && s@ == spec_enc_state(st2)) implies (
                state_prefix_ok(chats@, st2, k as int + 1) && cur2 == p1 + spec_enc_centries(
                st2.chats@.take(k as int + 1),
            ).len() && enc_at(
                s@,
                cur2 as int,
                spec_enc_centries(st2.chats@.skip(k as int + 1)),
            )) by {
                let rest = st2.chats@.skip(k as int);
                assert(spec_enc_centries(rest) == spec_enc_nat(
                    rest[0].id.0 as u64 as nat,
                    NUM_WIDTH as nat,
                ) + spec_enc_nat(rest[0].chat.queues@.len(), NUM_WIDTH as nat)
                    + spec_enc_qentries(rest[0].chat.queues@) + spec_enc_centries(
                    rest.drop_first(),
                ));
                lemma_enc_at_split(
                    s@,
                    cur0,
                    spec_enc_centry(rest[0]),
                    spec_enc_centries(rest.drop_first()),
                );
                assert(rest[0] == st2.chats@[k as int]);
                assert(rest.drop_first() =~= st2.chats@.skip(k as int + 1));
                lemma_enc_centries_snoc(st2.chats@.take(k as int), st2.chats@[k as int]);
                assert(st2.chats@.take(k as int).push(st2.chats@[k as int]) =~= st2.chats@.take(
                    k as int + 1,
                ));
                assert(forall|x: int|
                    0 <= x < chats_prev.len() ==> chats@[x] == chats_prev[x]);
            }
        }
        cur = cur2;
        k = k + 1;
    }
    if cur != total {
        proof {
            assert forall|st2: State| !(st2.wf() && s@ == spec_enc_state(st2)) by {
                if st2.wf() && s@ == spec_enc_state(st2) {
                    assert(st2.chats@.take(cnt as int) =~= st2.chats@);
                    lemma_enc_len(st2.chats@.len(), NUM_WIDTH as nat);
                }
            }
        }
        return None;
    }
    let st = State { chats };
    proof {
        assert forall|st2: State| (st2.wf() && s@ == spec_enc_state(st2)) implies states_similar(
            st2,
            st,
        ) by {
            assert(st2.chats@.take(cnt as int) =~= st2.chats@);
        }
    }
    Some(st)
}

/// Writing the state out and reading the record back always succeeds and
/// reproduces an equivalent state: same chats, same queues, same members
/// in the same order, same expiries and join commands.
pub fn store_and_reload(state: &State) -> (r: Option<State>)
    requires
        state.wf(),
    ensures
        r matches Some(st) && st.wf() && states_similar(*state, st),
        r matches Some(st) && (forall|cid: i64, qid: Seq<char>| #[trigger] st.spec_queue(cid, qid)
            == state.spec_queue(cid, qid)),
{
    let text = encode_state(state);
    let r = decode_state(text.as_str());
    proof {
        let st = r->Some_0;
        crate::state::lemma_similar_states_agree(*state, st);
    }
    r
}

} // verus!
