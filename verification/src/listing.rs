//! Ordered listing of a chat's queues for display.

use vstd::prelude::*;
use crate::state::{
    distinct_queue_ids, has_queue_id, lemma_lookup_at_index, lemma_lookup_chat_absent,
    lemma_lookup_chat_at_index, lemma_lookup_finds, lookup_queue, QueueEntry, State,
};
use crate::types::{ChatId, QueueTime};

verus! {

/// What listing a chat yields: an explicit "no active queues" answer,
/// distinct from a list, or the chat's queues in display order.
pub enum ListQueuesResult {
    NoQueues,
    Queues(Vec<QueueEntry>),
}

/// Display-order key of a queue expiring at `timeout`, read at `now`: a
/// queue whose expiry fell strictly before `now` is understood to roll over
/// into the next day and sorts after every queue still ahead today; within
/// each group queues sort by their own expiry.
pub open spec fn spec_list_key(timeout: QueueTime, now: QueueTime) -> int {
    if timeout.spec_minutes() < now.spec_minutes() {
        timeout.spec_minutes() + 1440
    } else {
        timeout.spec_minutes()
    }
}

/// Exact executable mirror of the display-order key.
pub fn list_key(timeout: &QueueTime, now: &QueueTime) -> (r: u16)
    requires
        timeout.wf(),
        now.wf(),
    ensures
        r == spec_list_key(*timeout, *now),
{
    let m = timeout.minutes();
    if m < now.minutes() {
        m + 1440
    } else {
        m
    }
}

/// Every entry of the list is a queue of the chat, under its own
/// identifier and with its exact contents.
pub open spec fn listing_sound(s: State, cid: i64, entries: Seq<QueueEntry>) -> bool {
    forall|a: int|
        0 <= a < entries.len() ==> s.spec_queue(cid, (#[trigger] entries[a]).id@) == Some(
            entries[a].queue.model(),
        )
}

/// Every queue of the chat appears in the list.
pub open spec fn listing_complete(s: State, cid: i64, entries: Seq<QueueEntry>) -> bool {
    forall|q: Seq<char>| #[trigger] s.spec_queue(cid, q) is Some ==> has_queue_id(entries, q)
}

/// The list is in display order for the given "now".
pub open spec fn listing_ordered(entries: Seq<QueueEntry>, now: QueueTime) -> bool {
    forall|a: int, b: int|
        0 <= a < b < entries.len() ==> spec_list_key(
            (#[trigger] entries[a]).queue.model().timeout,
            now,
        ) <= spec_list_key((#[trigger] entries[b]).queue.model().timeout, now)
}

/// Lists the queues of a chat in display order; a chat that is absent or
/// has no queues yields the explicit no-queues answer, never an empty
/// table.
#[verifier::rlimit(80)]
pub fn list_queues(state: &State, chat_id: &ChatId, now: QueueTime) -> (r: ListQueuesResult)
    requires
        state.wf(),
        now.wf(),
    ensures
        match r {
            ListQueuesResult::NoQueues => forall|q: Seq<char>| #[trigger] state.spec_queue(
                chat_id.0,
                q,
            ) is None,
            ListQueuesResult::Queues(entries) => {
                &&& entries@.len() > 0
                &&& distinct_queue_ids(entries@)
                &&& listing_sound(*state, chat_id.0, entries@)
                &&& listing_complete(*state, chat_id.0, entries@)
                &&& listing_ordered(entries@, now)
            },
        },
{
    let ci_opt = find_chat_index(state, chat_id);
    match ci_opt {
        None => {
            proof {
                lemma_lookup_chat_absent(state.chats@, chat_id.0);
            }
            ListQueuesResult::NoQueues
        },
        Some(ci) => {
            proof {
                lemma_lookup_chat_at_index(state.chats@, ci as int);
            }
            let ghost src = state.chats@[ci as int].chat.queues@;
            let chat = &state.chats[ci].chat;
            let n = chat.queues.len();
            if n == 0 {
                proof {
                    assert(forall|q: Seq<char>| #[trigger] lookup_queue(src, q) is None);
                }
                return ListQueuesResult::NoQueues;
            }
            let mut sorted: Vec<QueueEntry> = Vec::new();
            let mut i: usize = 0;
            while i < n
                invariant
                    state.wf(),
                    now.wf(),
                    ci < state.chats@.len(),
                    state.chats@[ci as int].id.0 == chat_id.0,
                    src == state.chats@[ci as int].chat.queues@,
                    chat_anchor(state, chat_id.0, src),
                    n == src.len(),
                    i <= n,
                    sorted@.len() == i,
                    distinct_queue_ids(sorted@),
                    listing_ordered(sorted@, now),
                    forall|a: int|
                        0 <= a < sorted@.len() ==> exists|k: int|
                            0 <= k < i && (#[trigger] sorted@[a]).id@ == src[k].id@
                                && sorted@[a].queue.model() == src[k].queue.model(),
                    forall|k: int| 0 <= k < i ==> has_queue_id(sorted@, (#[trigger] src[k]).id@),
                decreases n - i,
            {
                let ghost sorted_prev = sorted@;
                let e = &state.chats[ci].chat.queues[i];
                proof {
                    assert(e.queue.wf());
                }
                let key = list_key(&e.queue.timeout(), &now);
                let mut j: usize = 0;
                while j < sorted.len() && list_key(&sorted[j].queue.timeout(), &now) <= key
                    invariant
                        now.wf(),
                        j <= sorted@.len(),
                        listing_ordered(sorted@, now),
                        forall|k: int|
                            0 <= k < sorted@.len() ==> (#[trigger] sorted@[k]).queue.wf(),
                        key == spec_list_key(e.queue.model().timeout, now),
                        forall|k: int|
                            0 <= k < j ==> spec_list_key(
                                (#[trigger] sorted@[k]).queue.model().timeout,
                                now,
                            ) <= key,
                    decreases sorted@.len() - j,
                {
                    j = j + 1;
                }
                proof {
                    assert(j < sorted@.len() ==> spec_list_key(
                        sorted@[j as int].queue.model().timeout,
                        now,
                    ) > key);
                }
                let e2 = QueueEntry { id: e.id.clone(), queue: e.queue.clone() };
                let ghost e2g = e2;
                sorted.insert(j, e2);
                proof {
                    assert forall|a: int, b: int|
                        0 <= a < b < sorted@.len() implies spec_list_key(
                        (#[trigger] sorted@[a]).queue.model().timeout,
                        now,
                    ) <= spec_list_key((#[trigger] sorted@[b]).queue.model().timeout, now) by {
                        let aa = if a < j {
                            a
                        } else {
                            a - 1
                        };
                        let bb = if b < j {
                            b
                        } else {
                            b - 1
                        };
                        if a != j && b != j {
                            assert(sorted@[a] == sorted_prev[aa]);
                            assert(sorted@[b] == sorted_prev[bb]);
                        } else if a == j {
                            assert(sorted@[b] == sorted_prev[bb]);
                        } else {
                            assert(sorted@[a] == sorted_prev[aa]);
                        }
                    }
                    assert forall|a: int|
                        0 <= a < sorted@.len() implies exists|k: int|
                        0 <= k < i + 1 && (#[trigger] sorted@[a]).id@ == src[k].id@
                            && sorted@[a].queue.model() == src[k].queue.model() by {
                        if a == j {
                            assert(sorted@[a] == e2g);
                            assert(sorted@[a].id@ == src[i as int].id@ && sorted@[a].queue.model()
                                == src[i as int].queue.model());
                        } else {
                            let aa = if a < j {
                                a
                            } else {
                                a - 1
                            };
                            assert(sorted@[a] == sorted_prev[aa]);
                            let k = choose|k: int|
                                0 <= k < i && sorted_prev[aa].id@ == src[k].id@
                                    && sorted_prev[aa].queue.model() == src[k].queue.model();
                            assert(sorted@[a].id@ == src[k].id@ && sorted@[a].queue.model()
                                == src[k].queue.model());
                        }
                    }
                    assert(distinct_queue_ids(sorted@)) by {
                        assert forall|a: int, b: int|
                            0 <= a < b < sorted@.len() implies sorted@[a].id@ != sorted@[b].id@ by {
                            if a == j || b == j {
                                let other = if a == j {
                                    b
                                } else {
                                    a
                                };
                                let oo = if other < j {
                                    other
                                } else {
                                    other - 1
                                };
                                assert(sorted@[other] == sorted_prev[oo]);
                                let k = choose|k: int|
                                    0 <= k < i && sorted_prev[oo].id@ == src[k].id@
                                        && sorted_prev[oo].queue.model() == src[k].queue.model();
                                assert(src[k].id@ != src[i as int].id@);
                            } else {
                                let aa = if a < j {
                                    a
                                } else {
                                    a - 1
                                };
                                let bb = if b < j {
                                    b
                                } else {
                                    b - 1
                                };
                                assert(sorted@[a] == sorted_prev[aa]);
                                assert(sorted@[b] == sorted_prev[bb]);
                            }
                        }
                    }
                    assert forall|k: int|
                        0 <= k < i + 1 implies has_queue_id(sorted@, (#[trigger] src[k]).id@) by {
                        if k == i {
                            assert(sorted@[j as int].id@ == src[k].id@);
                        } else {
                            let a = choose|a: int|
                                0 <= a < sorted_prev.len() && sorted_prev[a].id@ == src[k].id@;
                            let a2 = if a < j {
                                a
                            } else {
                                a + 1
                            };
                            assert(sorted@[a2] == sorted_prev[a]);
                        }
                    }
                }
                i = i + 1;
            }
            proof {
                assert forall|a: int|
                    0 <= a < sorted@.len() implies state.spec_queue(
                    chat_id.0,
                    (#[trigger] sorted@[a]).id@,
                ) == Some(sorted@[a].queue.model()) by {
                    let k = choose|k: int|
                        0 <= k < n && sorted@[a].id@ == src[k].id@ && sorted@[a].queue.model()
                            == src[k].queue.model();
                    assert(forall|x: int| 0 <= x < k ==> src[x].id@ != src[k].id@);
                    lemma_lookup_at_index(src, k);
                }
                assert forall|q: Seq<char>| #[trigger] state.spec_queue(chat_id.0, q)
                    is Some implies has_queue_id(sorted@, q) by {
                    lemma_lookup_finds(src, q);
                    let k = choose|k: int|
                        0 <= k < src.len() && src[k].id@ == q && lookup_queue(src, q) == Some(
                            src[k].queue.model(),
                        );
                }
            }
            ListQueuesResult::Queues(sorted)
        },
    }
}

/// Ghost anchor tying the sort loop to the chat's place in the state.
pub open spec fn chat_anchor(state: &State, cid: i64, src: Seq<QueueEntry>) -> bool {
    state.spec_chat(cid) == Some(src) && (forall|k: int|
        0 <= k < src.len() ==> (#[trigger] src[k]).queue.wf())
}

/// Index of the chat stored under the given identifier, if any.
fn find_chat_index(state: &State, chat_id: &ChatId) -> (r: Option<usize>)
    ensures
        match r {
            Some(i) => i < state.chats@.len() && state.chats@[i as int].id.0 == chat_id.0
                && (forall|k: int| 0 <= k < i ==> state.chats@[k].id.0 != chat_id.0),
            None => !crate::state::has_chat_id(state.chats@, chat_id.0),
        },
{
    let n = state.chats.len();
    let mut i: usize = 0;
    while i < n
        invariant
            n == state.chats@.len(),
            i <= n,
            forall|k: int| 0 <= k < i ==> state.chats@[k].id.0 != chat_id.0,
        decreases n - i,
    {
        if state.chats[i].id.0 == chat_id.0 {
            return Some(i);
        }
        i = i + 1;
    }
    None
}

} // verus!
