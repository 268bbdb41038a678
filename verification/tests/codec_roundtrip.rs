//! Tests for the durable state encoding: round trips and rejection of
//! corrupt records.

use add_bot::codec::{decode_state, encode_state, store_and_reload};
use add_bot::listing::{list_queues, ListQueuesResult};
use add_bot::state::State;
use add_bot::types::{ChatId, QueueId, QueueTime, Username};

fn u(s: &str) -> Username {
    Username::new(s.to_string())
}

fn qid(s: &str) -> QueueId {
    QueueId::new(s.to_string())
}

fn t(h: u8, m: u8) -> QueueTime {
    QueueTime::new(h, m)
}

fn with_queue(state: &State, chat: i64, id: &str, time: QueueTime, user: &str) -> State {
    let (next, _, _) = state.add_remove_player(
        &ChatId(chat),
        &qid(id),
        format!("/{}", id),
        time,
        u(user),
    );
    next
}

fn populated() -> State {
    let state = State::new();
    let state = with_queue(&state, 10, "1930", t(19, 30), "alice");
    let state = with_queue(&state, 10, "1930", t(19, 30), "bob");
    let state = with_queue(&state, 10, "", t(0, 0), "carol");
    let state = with_queue(&state, -7, "0815", t(8, 15), "dave");
    state
}

#[test]
fn round_trip_preserves_everything() {
    let state = populated();
    let text = encode_state(&state);
    let back = decode_state(text.as_str()).expect("a fresh record must decode");
    // The reloaded state re-encodes to the identical record: same chats in
    // the same order, same queues, same members, timeouts and commands.
    assert_eq!(encode_state(&back), text);
    match list_queues(&back, &ChatId(10), t(12, 0)) {
        ListQueuesResult::Queues(entries) => {
            assert_eq!(entries.len(), 2);
            for e in &entries {
                if e.id.text() == "1930" {
                    assert_eq!(e.queue.num_players(), 2);
                    assert!(e.queue.has_player(&u("alice")));
                    assert!(e.queue.has_player(&u("bob")));
                    assert_eq!(e.queue.timeout(), t(19, 30));
                    assert_eq!(e.queue.add_cmd().as_str(), "/1930");
                } else {
                    assert!(e.id.is_instant_queue());
                    assert_eq!(e.queue.num_players(), 1);
                }
            }
        }
        _ => panic!("expected queues after reload"),
    }
}

#[test]
fn round_trip_keeps_join_order() {
    let state = State::new();
    let state = with_queue(&state, 1, "2000", t(20, 0), "zoe");
    let state = with_queue(&state, 1, "2000", t(20, 0), "adam");
    let state = with_queue(&state, 1, "2000", t(20, 0), "mia");
    let text = encode_state(&state);
    let back = decode_state(text.as_str()).unwrap();
    match list_queues(&back, &ChatId(1), t(12, 0)) {
        ListQueuesResult::Queues(entries) => {
            let (main, _) = entries[0].queue.get_players();
            assert_eq!(main, vec![u("zoe"), u("adam"), u("mia")]);
        }
        _ => panic!("expected queues"),
    }
}

#[test]
fn store_and_reload_succeeds_on_any_state() {
    let state = populated();
    let back = store_and_reload(&state).expect("reload is guaranteed");
    assert_eq!(encode_state(&back), encode_state(&state));
    let empty = State::new();
    let back = store_and_reload(&empty).expect("reload is guaranteed");
    assert_eq!(encode_state(&back), encode_state(&empty));
}

#[test]
fn empty_state_round_trips() {
    let state = State::new();
    let text = encode_state(&state);
    let back = decode_state(text.as_str()).unwrap();
    assert!(matches!(
        list_queues(&back, &ChatId(1), t(12, 0)),
        ListQueuesResult::NoQueues
    ));
}

#[test]
fn decode_rejects_an_empty_record() {
    assert!(decode_state("").is_none());
}

#[test]
fn decode_rejects_plain_text() {
    assert!(decode_state("not a state record at all").is_none());
}

#[test]
fn decode_rejects_a_truncated_record() {
    let text = encode_state(&populated());
    let cut: String = text.chars().take(text.chars().count() - 3).collect();
    assert!(decode_state(cut.as_str()).is_none());
}

#[test]
fn decode_rejects_trailing_garbage() {
    let mut text = encode_state(&populated());
    text.push('x');
    assert!(decode_state(text.as_str()).is_none());
}

#[test]
fn decode_rejects_a_corrupted_digit() {
    let text = encode_state(&populated());
    // Damage the leading chat-count field.
    let mut damaged: Vec<char> = text.chars().collect();
    damaged[0] = 'x';
    let damaged: String = damaged.into_iter().collect();
    assert!(decode_state(damaged.as_str()).is_none());
}

#[test]
fn decode_rejects_a_duplicate_player() {
    let state = State::new();
    let state = with_queue(&state, 1, "2000", t(20, 0), "aaaa");
    let state = with_queue(&state, 1, "2000", t(20, 0), "bbbb");
    let text = encode_state(&state);
    // Overwriting the second player's name with the first one's leaves a
    // structurally valid record that names the same player twice.
    let tampered = text.replace("bbbb", "aaaa");
    assert_ne!(text, tampered);
    assert!(decode_state(tampered.as_str()).is_none());
}
