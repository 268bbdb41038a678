//! The timeout sweep: find every queue whose expiry equals the current
//! minute.  The caller removes each reported queue with its own
//! read-compute-write cycle, so a crash between two expiries leaves the
//! remaining ones to the next tick.

use vstd::prelude::*;
use crate::state::{
    lemma_lookup_at_index, lemma_lookup_chat_at_index, lemma_lookup_chat_finds,
    lemma_lookup_finds, lookup_queue, State,
};
use crate::types::{ChatId, QueueId, QueueTime};

verus! {

/// Whether the sweep output names the queue `qid` of chat `cid`.
pub open spec fn pair_reported(pairs: Seq<(ChatId, QueueId)>, cid: i64, qid: Seq<char>) -> bool {
    exists|k: int| 0 <= k < pairs.len() && pairs[k].0.0 == cid && pairs[k].1@ == qid
}

/// Every reported pair names a live queue whose expiry is exactly `now`,
/// minute for minute: a queue already gone — for instance one emptied by
/// hand before its time — is never reported again.
pub open spec fn sweep_sound(s: State, now: QueueTime, pairs: Seq<(ChatId, QueueId)>) -> bool {
    forall|k: int|
        0 <= k < pairs.len() ==> (s.spec_queue((#[trigger] pairs[k]).0.0, pairs[k].1@)
            matches Some(m) && m.timeout == now)
}

/// Every live queue whose expiry is exactly `now` is reported: the sweep
/// fires neither a minute early nor a minute late.
pub open spec fn sweep_complete(s: State, now: QueueTime, pairs: Seq<(ChatId, QueueId)>) -> bool {
    forall|cid: i64, qid: Seq<char>|
        (#[trigger] s.spec_queue(cid, qid) matches Some(m) && m.timeout == now) ==> pair_reported(
            pairs,
            cid,
            qid,
        )
}

/// One sweep of the whole state: the chats and queue identifiers of
/// exactly those queues whose expiry equals `now`.
pub fn find_timed_out(state: &State, now: QueueTime) -> (r: Vec<(ChatId, QueueId)>)
    requires
        state.wf(),
    ensures
        sweep_sound(*state, now, r@),
        sweep_complete(*state, now, r@),
{
    let mut pairs: Vec<(ChatId, QueueId)> = Vec::new();
    let n = state.chats.len();
    let mut i: usize = 0;
    while i < n
        invariant
            state.wf(),
            n == state.chats@.len(),
            i <= n,
            sweep_sound(*state, now, pairs@),
            forall|j: int, k: int|
                0 <= j < i && 0 <= k < state.chats@[j].chat.queues@.len() && (#[trigger] state.chats@[j].chat.queues@[k]).queue.model().timeout
                    == now ==> pair_reported(
                    pairs@,
                    state.chats@[j].id.0,
                    state.chats@[j].chat.queues@[k].id@,
                ),
        decreases n - i,
    {
        proof {
            lemma_lookup_chat_at_index(state.chats@, i as int);
        }
        let m = state.chats[i].chat.queues.len();
        let mut k: usize = 0;
        while k < m
            invariant
                state.wf(),
                i < n == state.chats@.len(),
                m == state.chats@[i as int].chat.queues@.len(),
                k <= m,
                state.spec_chat(state.chats@[i as int].id.0) == Some(
                    state.chats@[i as int].chat.queues@,
                ),
                sweep_sound(*state, now, pairs@),
                forall|j: int, k2: int|
                    0 <= j < i && 0 <= k2 < state.chats@[j].chat.queues@.len() && (#[trigger] state.chats@[j].chat.queues@[k2]).queue.model().timeout
                        == now ==> pair_reported(
                        pairs@,
                        state.chats@[j].id.0,
                        state.chats@[j].chat.queues@[k2].id@,
                    ),
                forall|k2: int|
                    0 <= k2 < k && (#[trigger] state.chats@[i as int].chat.queues@[k2]).queue.model().timeout
                        == now ==> pair_reported(
                        pairs@,
                        state.chats@[i as int].id.0,
                        state.chats@[i as int].chat.queues@[k2].id@,
                    ),
            decreases m - k,
        {
            let ghost pairs_prev = pairs@;
            let entry = &state.chats[i].chat.queues[k];
            if entry.queue.timeout() == now {
                proof {
                    assert(forall|x: int|
                        0 <= x < k ==> state.chats@[i as int].chat.queues@[x].id@
                            != state.chats@[i as int].chat.queues@[k as int].id@);
                    lemma_lookup_at_index(state.chats@[i as int].chat.queues@, k as int);
                }
                pairs.push((state.chats[i].id, entry.id.clone()));
                proof {
                    assert(pairs@[pairs@.len() - 1].0.0 == state.chats@[i as int].id.0
                        && pairs@[pairs@.len() - 1].1@
                            == state.chats@[i as int].chat.queues@[k as int].id@);
                    assert(forall|x: int| 0 <= x < pairs_prev.len() ==> pairs@[x] == pairs_prev[x]);
                }
            }
            proof {
                if pairs@ != pairs_prev {
                    assert(forall|x: int| 0 <= x < pairs_prev.len() ==> pairs@[x] == pairs_prev[x]);
                }
                assert forall|j: int, k2: int|
                    0 <= j < i && 0 <= k2 < state.chats@[j].chat.queues@.len() && (#[trigger] state.chats@[j].chat.queues@[k2]).queue.model().timeout
                        == now implies pair_reported(
                    pairs@,
                    state.chats@[j].id.0,
                    state.chats@[j].chat.queues@[k2].id@,
                ) by {
                    let x = choose|x: int|
                        0 <= x < pairs_prev.len() && pairs_prev[x].0.0 == state.chats@[j].id.0
                            && pairs_prev[x].1@ == state.chats@[j].chat.queues@[k2].id@;
                    assert(pairs@[x] == pairs_prev[x]);
                }
                assert forall|k2: int|
                    0 <= k2 < k + 1 && (#[trigger] state.chats@[i as int].chat.queues@[k2]).queue.model().timeout
                        == now implies pair_reported(
                    pairs@,
                    state.chats@[i as int].id.0,
                    state.chats@[i as int].chat.queues@[k2].id@,
                ) by {
                    if k2 < k {
                        let x = choose|x: int|
                            0 <= x < pairs_prev.len() && pairs_prev[x].0.0
                                == state.chats@[i as int].id.0 && pairs_prev[x].1@
                                == state.chats@[i as int].chat.queues@[k2].id@;
                        assert(pairs@[x] == pairs_prev[x]);
                    } else {
                        assert(pairs@[pairs@.len() - 1].0.0 == state.chats@[i as int].id.0);
                    }
                }
            }
            k = k + 1;
        }
        i = i + 1;
    }
    proof {
        assert forall|cid: i64, qid: Seq<char>|
            (#[trigger] state.spec_queue(cid, qid) matches Some(mm) && mm.timeout == now)
                implies pair_reported(pairs@, cid, qid) by {
            lemma_lookup_chat_finds(state.chats@, cid);
            let j = choose|j: int|
                0 <= j < state.chats@.len() && state.chats@[j].id.0 == cid && lookup_chat_of(
                    *state,
                    cid,
                ) == Some(state.chats@[j].chat.queues@);
            lemma_lookup_finds(state.chats@[j].chat.queues@, qid);
            let k2 = choose|k2: int|
                0 <= k2 < state.chats@[j].chat.queues@.len()
                    && state.chats@[j].chat.queues@[k2].id@ == qid && lookup_queue(
                    state.chats@[j].chat.queues@,
                    qid,
                ) == Some(state.chats@[j].chat.queues@[k2].queue.model());
        }
    }
    pairs
}

/// Shorthand for the chat lookup used in the completeness proof.
pub open spec fn lookup_chat_of(s: State, cid: i64) -> Option<
    Seq<crate::state::QueueEntry>,
> {
    s.spec_chat(cid)
}

} // verus!
