//! Scenario tests for the queue state machine: toggling, capacity,
//! emptying, and remove-everywhere.

use add_bot::listing::{list_queues, ListQueuesResult};
use add_bot::state::{AddRemovePlayerOp, AddRemovePlayerResult, State, QUEUE_SIZE};
use add_bot::types::{ChatId, QueueId, QueueTime, Username};

fn u(s: &str) -> Username {
    Username::new(s.to_string())
}

fn qid(s: &str) -> QueueId {
    QueueId::new(s.to_string())
}

fn t(h: u8, m: u8) -> QueueTime {
    QueueTime::new(h, m)
}

fn toggle(state: &State, chat: i64, id: &str, time: QueueTime, user: &str) -> (State, AddRemovePlayerResult, AddRemovePlayerOp) {
    state.add_remove_player(&ChatId(chat), &qid(id), format!("/{}", id), time, u(user))
}

fn listed_ids(state: &State, chat: i64, now: QueueTime) -> Vec<String> {
    match list_queues(state, &ChatId(chat), now) {
        ListQueuesResult::NoQueues => panic!("expected queues"),
        ListQueuesResult::Queues(entries) => {
            entries.iter().map(|e| e.id.text().to_string()).collect()
        }
    }
}

#[test]
fn join_creates_queue_and_reports_queued() {
    let state = State::new();
    let (state, result, op) = toggle(&state, 1, "1930", t(19, 30), "alice");
    assert!(matches!(op, AddRemovePlayerOp::PlayerAdded(_)));
    match result {
        AddRemovePlayerResult::PlayerQueued(q) => {
            assert_eq!(q.num_players(), 1);
            assert!(q.has_players());
            assert!(!q.is_full());
        }
        _ => panic!("expected PlayerQueued"),
    }
    assert_eq!(listed_ids(&state, 1, t(12, 0)), vec!["1930".to_string()]);
}

#[test]
fn toggle_join_then_leave_restores_state() {
    let state = State::new();
    let (state, _, _) = toggle(&state, 7, "1900", t(19, 0), "alice");
    let before = listed_ids(&state, 7, t(12, 0));
    // A second player joins and leaves again: back to the same queues.
    let (state2, _, op_join) = toggle(&state, 7, "1900", t(19, 0), "bob");
    assert!(matches!(op_join, AddRemovePlayerOp::PlayerAdded(_)));
    let (state3, result, op_leave) = toggle(&state2, 7, "1900", t(19, 0), "bob");
    assert!(matches!(op_leave, AddRemovePlayerOp::PlayerRemoved(_)));
    match result {
        AddRemovePlayerResult::PlayerQueued(q) => {
            assert_eq!(q.num_players(), 1);
            assert!(q.has_player(&u("alice")));
            assert!(!q.has_player(&u("bob")));
        }
        _ => panic!("expected PlayerQueued"),
    }
    assert_eq!(listed_ids(&state3, 7, t(12, 0)), before);
}

#[test]
fn toggle_pair_on_fresh_queue_leaves_nothing_behind() {
    let state = State::new();
    let (state, _, _) = toggle(&state, 7, "2000", t(20, 0), "alice");
    let (state, result, _) = toggle(&state, 7, "2000", t(20, 0), "alice");
    match result {
        AddRemovePlayerResult::QueueEmpty(q) => assert_eq!(q.num_players(), 0),
        _ => panic!("expected QueueEmpty"),
    }
    assert!(matches!(
        list_queues(&state, &ChatId(7), t(12, 0)),
        ListQueuesResult::NoQueues
    ));
}

#[test]
fn fifth_join_fills_instant_queue_and_removes_it() {
    let mut state = State::new();
    let names = ["p1", "p2", "p3", "p4", "p5"];
    let mut last = None;
    for name in names {
        let (next, result, _) = toggle(&state, 3, "", t(0, 0), name);
        state = next;
        last = Some(result);
    }
    match last.unwrap() {
        AddRemovePlayerResult::QueueFull(q) => {
            assert_eq!(q.num_players(), QUEUE_SIZE);
            assert!(q.is_full());
        }
        _ => panic!("expected QueueFull on the fifth join"),
    }
    // The full instant queue fired and left the chat at once.
    assert!(matches!(
        list_queues(&state, &ChatId(3), t(12, 0)),
        ListQueuesResult::NoQueues
    ));
}

#[test]
fn fifth_join_fills_timed_queue_but_keeps_it() {
    let mut state = State::new();
    for name in ["p1", "p2", "p3", "p4"] {
        let (next, _, _) = toggle(&state, 3, "2100", t(21, 0), name);
        state = next;
    }
    let (state, result, _) = toggle(&state, 3, "2100", t(21, 0), "p5");
    assert!(matches!(result, AddRemovePlayerResult::QueueFull(_)));
    assert_eq!(listed_ids(&state, 3, t(12, 0)), vec!["2100".to_string()]);
    // A sixth join succeeds and lands in the reserve list only.
    let (state, result, op) = toggle(&state, 3, "2100", t(21, 0), "p6");
    assert!(matches!(op, AddRemovePlayerOp::PlayerAdded(_)));
    match result {
        AddRemovePlayerResult::QueueFull(q) => {
            assert_eq!(q.num_players(), 6);
            let (main, reserve) = q.get_players();
            assert_eq!(main.len(), QUEUE_SIZE);
            assert!(!main.contains(&u("p6")));
            let reserve = reserve.expect("expected a reserve list");
            assert_eq!(reserve, vec![u("p6")]);
        }
        _ => panic!("expected QueueFull"),
    }
    assert_eq!(listed_ids(&state, 3, t(12, 0)), vec!["2100".to_string()]);
}

#[test]
fn below_capacity_queue_has_no_reserve_list() {
    let mut state = State::new();
    for name in ["p1", "p2"] {
        let (next, _, _) = toggle(&state, 3, "2100", t(21, 0), name);
        state = next;
    }
    match list_queues(&state, &ChatId(3), t(12, 0)) {
        ListQueuesResult::Queues(entries) => {
            let (main, reserve) = entries[0].queue.get_players();
            assert_eq!(main, vec![u("p1"), u("p2")]);
            assert!(reserve.is_none());
        }
        _ => panic!("expected queues"),
    }
}

#[test]
fn leaving_as_sole_player_empties_and_removes_queue() {
    let state = State::new();
    let (state, _, _) = toggle(&state, 9, "0830", t(8, 30), "solo");
    let (state, result, op) = toggle(&state, 9, "0830", t(8, 30), "solo");
    assert!(matches!(op, AddRemovePlayerOp::PlayerRemoved(_)));
    match result {
        AddRemovePlayerResult::QueueEmpty(q) => {
            assert_eq!(q.num_players(), 0);
            assert!(!q.has_players());
        }
        _ => panic!("expected QueueEmpty"),
    }
    assert!(matches!(
        list_queues(&state, &ChatId(9), t(12, 0)),
        ListQueuesResult::NoQueues
    ));
}

#[test]
fn remove_everywhere_clears_both_queues_and_reports_them() {
    let mut state = State::new();
    for (id, time) in [("1930", t(19, 30)), ("", t(0, 0))] {
        for name in ["gamer", "other"] {
            let (next, _, _) = toggle(&state, 5, id, time, name);
            state = next;
        }
    }
    // A third queue the player was never in.
    let (state, _, _) = toggle(&state, 5, "2200", t(22, 0), "other");
    let (state, affected) = state.rm_player(&ChatId(5), &u("gamer"));
    let mut affected_ids: Vec<String> = affected.iter().map(|e| e.id.text().to_string()).collect();
    affected_ids.sort();
    assert_eq!(affected_ids, vec!["".to_string(), "1930".to_string()]);
    for e in &affected {
        assert!(!e.queue.has_player(&u("gamer")));
        assert!(e.queue.has_player(&u("other")));
    }
    // All three queues survive (each still holds "other"), none holds "gamer".
    match list_queues(&state, &ChatId(5), t(12, 0)) {
        ListQueuesResult::Queues(entries) => {
            assert_eq!(entries.len(), 3);
            for e in &entries {
                assert!(!e.queue.has_player(&u("gamer")));
                assert!(e.queue.has_player(&u("other")));
            }
        }
        _ => panic!("expected queues"),
    }
}

#[test]
fn remove_everywhere_drops_queues_that_empty() {
    let state = State::new();
    let (state, _, _) = toggle(&state, 5, "1930", t(19, 30), "gamer");
    let (state, affected) = state.rm_player(&ChatId(5), &u("gamer"));
    assert_eq!(affected.len(), 1);
    assert_eq!(affected[0].id.text(), "1930");
    assert_eq!(affected[0].queue.num_players(), 0);
    assert!(matches!(
        list_queues(&state, &ChatId(5), t(12, 0)),
        ListQueuesResult::NoQueues
    ));
}

#[test]
fn remove_everywhere_in_unknown_chat_is_a_noop() {
    let state = State::new();
    let (state2, affected) = state.rm_player(&ChatId(42), &u("nobody"));
    assert!(affected.is_empty());
    assert!(matches!(
        list_queues(&state2, &ChatId(42), t(12, 0)),
        ListQueuesResult::NoQueues
    ));
}

#[test]
fn chats_are_independent() {
    let state = State::new();
    let (state, _, _) = toggle(&state, 1, "1930", t(19, 30), "alice");
    let (state, _, _) = toggle(&state, 2, "2030", t(20, 30), "bob");
    assert_eq!(listed_ids(&state, 1, t(12, 0)), vec!["1930".to_string()]);
    assert_eq!(listed_ids(&state, 2, t(12, 0)), vec!["2030".to_string()]);
    let (state, _) = state.rm_player(&ChatId(1), &u("alice"));
    assert!(matches!(
        list_queues(&state, &ChatId(1), t(12, 0)),
        ListQueuesResult::NoQueues
    ));
    assert_eq!(listed_ids(&state, 2, t(12, 0)), vec!["2030".to_string()]);
}

#[test]
fn rm_chat_queue_removes_and_returns_the_queue() {
    let state = State::new();
    let (state, _, _) = toggle(&state, 4, "1700", t(17, 0), "alice");
    let (state, removed) = state.rm_chat_queue(&ChatId(4), &qid("1700"));
    let removed = removed.expect("queue should have been there");
    assert_eq!(removed.num_players(), 1);
    assert!(removed.has_player(&u("alice")));
    let (_, removed_again) = state.rm_chat_queue(&ChatId(4), &qid("1700"));
    assert!(removed_again.is_none());
}

#[test]
fn existing_queue_keeps_its_original_timeout() {
    let state = State::new();
    let (state, _, _) = toggle(&state, 6, "1800", t(18, 0), "alice");
    // A later joiner supplies a different candidate timeout; it is ignored.
    let (state, _, _) = toggle(&state, 6, "1800", t(23, 59), "bob");
    match list_queues(&state, &ChatId(6), t(12, 0)) {
        ListQueuesResult::Queues(entries) => {
            assert_eq!(entries[0].queue.timeout(), t(18, 0));
        }
        _ => panic!("expected queues"),
    }
}

#[test]
fn queue_size_is_five() {
    let q = add_bot::state::Queue::new(t(12, 0), "/add".to_string());
    assert_eq!(q.size(), 5);
    assert_eq!(QUEUE_SIZE, 5);
}
