//! Tests for the display ordering of queues and the minute-exact timeout
//! sweep.

use add_bot::listing::{list_queues, ListQueuesResult};
use add_bot::scheduler::find_timed_out;
use add_bot::state::State;
use add_bot::types::{ChatId, QueueId, QueueTime, Username};

fn u(s: &str) -> Username {
    Username::new(s.to_string())
}

fn qid(s: &str) -> QueueId {
    QueueId::new(s.to_string())
}

fn t(h: u8, m: u8) -> QueueTime {
    QueueTime::new(h, m)
}

fn with_queue(state: &State, chat: i64, id: &str, time: QueueTime, user: &str) -> State {
    let (next, _, _) = state.add_remove_player(
        &ChatId(chat),
        &qid(id),
        format!("/{}", id),
        time,
        u(user),
    );
    next
}

#[test]
fn list_orders_past_timeouts_after_upcoming_ones() {
    let state = State::new();
    let state = with_queue(&state, 1, "0800", t(8, 0), "a");
    let state = with_queue(&state, 1, "2300", t(23, 0), "b");
    let state = with_queue(&state, 1, "0030", t(0, 30), "c");
    // Read at 22:00: 08:00 and 00:30 already passed and roll over to the
    // next day, so they sort after 23:00, ordered between themselves by
    // their own time.
    match list_queues(&state, &ChatId(1), t(22, 0)) {
        ListQueuesResult::Queues(entries) => {
            let ids: Vec<String> = entries.iter().map(|e| e.id.text().to_string()).collect();
            assert_eq!(
                ids,
                vec!["2300".to_string(), "0030".to_string(), "0800".to_string()]
            );
        }
        _ => panic!("expected queues"),
    }
}

#[test]
fn list_order_follows_the_clock() {
    let state = State::new();
    let state = with_queue(&state, 1, "0800", t(8, 0), "a");
    let state = with_queue(&state, 1, "2300", t(23, 0), "b");
    // Read at 07:00 both are still ahead: plain time order.
    match list_queues(&state, &ChatId(1), t(7, 0)) {
        ListQueuesResult::Queues(entries) => {
            let ids: Vec<String> = entries.iter().map(|e| e.id.text().to_string()).collect();
            assert_eq!(ids, vec!["0800".to_string(), "2300".to_string()]);
        }
        _ => panic!("expected queues"),
    }
}

#[test]
fn list_of_absent_chat_is_the_no_queues_answer() {
    let state = State::new();
    assert!(matches!(
        list_queues(&state, &ChatId(999), t(12, 0)),
        ListQueuesResult::NoQueues
    ));
}

#[test]
fn queue_exactly_at_now_counts_as_upcoming() {
    let state = State::new();
    let state = with_queue(&state, 1, "2200", t(22, 0), "a");
    let state = with_queue(&state, 1, "2100", t(21, 0), "b");
    // At 22:00 sharp the 22:00 queue has not rolled over yet; 21:00 has.
    match list_queues(&state, &ChatId(1), t(22, 0)) {
        ListQueuesResult::Queues(entries) => {
            let ids: Vec<String> = entries.iter().map(|e| e.id.text().to_string()).collect();
            assert_eq!(ids, vec!["2200".to_string(), "2100".to_string()]);
        }
        _ => panic!("expected queues"),
    }
}

#[test]
fn sweep_fires_exactly_at_the_timeout_minute() {
    let state = State::new();
    let state = with_queue(&state, 8, "1405", t(14, 5), "gamer");
    assert!(find_timed_out(&state, t(14, 4)).is_empty());
    let fired = find_timed_out(&state, t(14, 5));
    assert_eq!(fired.len(), 1);
    assert_eq!(fired[0].0, ChatId(8));
    assert_eq!(fired[0].1.text(), "1405");
    assert!(find_timed_out(&state, t(14, 6)).is_empty());
}

#[test]
fn sweep_skips_a_queue_already_emptied_by_hand() {
    let state = State::new();
    let state = with_queue(&state, 8, "1405", t(14, 5), "gamer");
    // The sole player leaves before the timeout: the queue is gone.
    let (state, _, _) = state.add_remove_player(
        &ChatId(8),
        &qid("1405"),
        "/1405".to_string(),
        t(14, 5),
        u("gamer"),
    );
    assert!(find_timed_out(&state, t(14, 5)).is_empty());
}

#[test]
fn sweep_reports_matching_queues_across_chats() {
    let state = State::new();
    let state = with_queue(&state, 1, "0900", t(9, 0), "a");
    let state = with_queue(&state, 2, "0900", t(9, 0), "b");
    let state = with_queue(&state, 2, "0930", t(9, 30), "b");
    let fired = find_timed_out(&state, t(9, 0));
    assert_eq!(fired.len(), 2);
    let mut chats: Vec<i64> = fired.iter().map(|p| p.0 .0).collect();
    chats.sort();
    assert_eq!(chats, vec![1, 2]);
    for (_, id) in &fired {
        assert_eq!(id.text(), "0900");
    }
}

#[test]
fn sweep_then_removal_mirrors_a_manual_expiry() {
    let state = State::new();
    let state = with_queue(&state, 8, "1405", t(14, 5), "gamer");
    let fired = find_timed_out(&state, t(14, 5));
    let (state, removed) = state.rm_chat_queue(&fired[0].0, &fired[0].1);
    let removed = removed.expect("fired queue must still be there");
    assert!(removed.has_player(&u("gamer")));
    assert!(!removed.is_full());
    // A second sweep of the new state reports nothing: no duplicate event.
    assert!(find_timed_out(&state, t(14, 5)).is_empty());
}
