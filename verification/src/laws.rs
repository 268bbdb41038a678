//! System-wide laws of the queue state machine, stated over the transition
//! relations that the executable functions ensure.

use vstd::prelude::*;
use crate::state::{
    toggle_post, toggle_classified, toggled_queue, queue_players_of, rm_post, removed_lookup,
    without_name, lemma_without_push, lemma_without_name_gone, lemma_filter_absent,
    lemma_wf_spec_queue, AddRemovePlayerOp, AddRemovePlayerResult, QueueModel, State, QUEUE_SIZE,
};
use crate::types::{QueueTime, Username};

verus! {

/// Joining and then leaving (same player, same queue) returns the state to
/// an equivalent snapshot: every chat holds the same queues with the same
/// players, and a queue absent before is absent again.  The one input left
/// out is a join that fills the instant queue, which releases that queue at
/// once instead of keeping it for the leave to undo.
pub proof fn lemma_toggle_pair_restores(
    pre: State,
    mid: State,
    post: State,
    cid: i64,
    qid: Seq<char>,
    t1: QueueTime,
    c1: Seq<char>,
    t2: QueueTime,
    c2: Seq<char>,
    name: Seq<char>,
)
    requires
        pre.wf(),
        toggle_post(pre, mid, cid, qid, t1, c1, name),
        toggle_post(mid, post, cid, qid, t2, c2, name),
        !queue_players_of(pre.spec_queue(cid, qid)).contains(name),
        !(qid.len() == 0 && queue_players_of(pre.spec_queue(cid, qid)).len() + 1 >= QUEUE_SIZE),
    ensures
        forall|c: i64, q: Seq<char>| #[trigger] post.spec_queue(c, q) == pre.spec_queue(c, q),
{
    lemma_wf_spec_queue(pre, cid, qid);
    assert forall|c: i64, q: Seq<char>| #[trigger] post.spec_queue(c, q) == pre.spec_queue(
        c,
        q,
    ) by {
        if c != cid || q != qid {
            assert(mid.spec_queue(c, q) == pre.spec_queue(c, q));
            assert(post.spec_queue(c, q) == mid.spec_queue(c, q));
        } else {
            let before = pre.spec_queue(cid, qid);
            let p = queue_players_of(before);
            let joined = p.push(name);
            assert(joined.contains(name)) by {
                assert(joined[joined.len() - 1] == name);
            }
            lemma_without_push(p, name);
            match before {
                None => {
                    assert(mid.spec_queue(cid, qid) matches Some(m1) && m1.players == joined);
                    assert(post.spec_queue(cid, qid) is None) by {
                        assert(without_name(joined, name) == p);
                    }
                },
                Some(m) => {
                    assert(m.players.len() > 0);
                    assert(mid.spec_queue(cid, qid) matches Some(m1) && m1.players == joined
                        && m1.timeout == m.timeout && m1.add_cmd == m.add_cmd);
                    assert(without_name(joined, name) == p);
                    assert(post.spec_queue(cid, qid) matches Some(m2) && m2 == m) by {
                        assert((QueueModel {
                            players: m.players,
                            timeout: m.timeout,
                            add_cmd: m.add_cmd,
                        }) == m);
                    }
                },
            }
        }
    }
}

/// The fifth join fills a fresh queue: the outcome is Full and carries all
/// five players with the new joiner last.  The full instant queue fires and
/// leaves the chat at once; a full timed queue stays and keeps accepting
/// joiners.
pub proof fn lemma_join_fills_queue(
    pre: State,
    post: State,
    cid: i64,
    qid: Seq<char>,
    t: QueueTime,
    c: Seq<char>,
    u: Username,
    res: AddRemovePlayerResult,
    op: AddRemovePlayerOp,
)
    requires
        pre.wf(),
        toggle_post(pre, post, cid, qid, t, c, u@),
        toggle_classified(pre.spec_queue(cid, qid), t, c, u, res, op),
        pre.spec_queue(cid, qid) matches Some(m) && !m.players.contains(u@) && m.players.len()
            == QUEUE_SIZE - 1,
    ensures
        op == AddRemovePlayerOp::PlayerAdded(u),
        res matches AddRemovePlayerResult::QueueFull(full) && full.model().players
            == pre.spec_queue(cid, qid)->Some_0.players.push(u@),
        qid.len() == 0 ==> post.spec_queue(cid, qid) is None,
        qid.len() > 0 ==> (post.spec_queue(cid, qid) matches Some(m2) && m2.players
            == pre.spec_queue(cid, qid)->Some_0.players.push(u@)),
{
    let m = pre.spec_queue(cid, qid)->Some_0;
    let after = toggled_queue(pre.spec_queue(cid, qid), t, c, u@);
    assert(after.players == m.players.push(u@));
    assert(after.players.len() == QUEUE_SIZE);
}

/// A sixth join on an already-full timed queue succeeds, keeps the queue,
/// and appears only in the reserve part of the split: the first
/// `QUEUE_SIZE` players are unchanged and the joiner sits in the remainder.
pub proof fn lemma_join_goes_to_reserve(
    pre: State,
    post: State,
    cid: i64,
    qid: Seq<char>,
    t: QueueTime,
    c: Seq<char>,
    u: Username,
    res: AddRemovePlayerResult,
    op: AddRemovePlayerOp,
)
    requires
        pre.wf(),
        qid.len() > 0,
        toggle_post(pre, post, cid, qid, t, c, u@),
        toggle_classified(pre.spec_queue(cid, qid), t, c, u, res, op),
        pre.spec_queue(cid, qid) matches Some(m) && !m.players.contains(u@) && m.players.len()
            >= QUEUE_SIZE,
    ensures
        op == AddRemovePlayerOp::PlayerAdded(u),
        res matches AddRemovePlayerResult::QueueFull(full),
        (post.spec_queue(cid, qid) matches Some(m2) && {
            let old_players = pre.spec_queue(cid, qid)->Some_0.players;
            &&& m2.players == old_players.push(u@)
            &&& m2.players.take(QUEUE_SIZE as int) == old_players.take(QUEUE_SIZE as int)
            &&& m2.players.skip(QUEUE_SIZE as int).contains(u@)
            &&& !m2.players.take(QUEUE_SIZE as int).contains(u@)
        }),
{
    let m = pre.spec_queue(cid, qid)->Some_0;
    let p2 = m.players.push(u@);
    assert(p2.take(QUEUE_SIZE as int) =~= m.players.take(QUEUE_SIZE as int));
    assert(p2.skip(QUEUE_SIZE as int).contains(u@)) by {
        assert(p2.skip(QUEUE_SIZE as int)[p2.len() - QUEUE_SIZE - 1] == u@);
    }
    assert(!p2.take(QUEUE_SIZE as int).contains(u@)) by {
        if p2.take(QUEUE_SIZE as int).contains(u@) {
            let k = choose|k: int| 0 <= k < QUEUE_SIZE && p2.take(QUEUE_SIZE as int)[k] == u@;
            assert(m.players[k] == u@);
        }
    }
}

/// Leaving as the sole remaining player empties the queue: the outcome is
/// Emptied with a zero-player snapshot, and the queue is gone from the chat
/// afterward.
pub proof fn lemma_leave_empties_queue(
    pre: State,
    post: State,
    cid: i64,
    qid: Seq<char>,
    t: QueueTime,
    c: Seq<char>,
    u: Username,
    res: AddRemovePlayerResult,
    op: AddRemovePlayerOp,
)
    requires
        pre.wf(),
        toggle_post(pre, post, cid, qid, t, c, u@),
        toggle_classified(pre.spec_queue(cid, qid), t, c, u, res, op),
        pre.spec_queue(cid, qid) matches Some(m) && m.players == seq![u@],
    ensures
        op == AddRemovePlayerOp::PlayerRemoved(u),
        res matches AddRemovePlayerResult::QueueEmpty(q) && q.model().players.len() == 0,
        post.spec_queue(cid, qid) is None,
{
    let m = pre.spec_queue(cid, qid)->Some_0;
    assert(m.players.contains(u@)) by {
        assert(m.players[0] == u@);
    }
    assert(without_name(m.players, u@).len() == 0) by {
        reveal_with_fuel(Seq::filter, 3);
        assert(m.players.drop_last() =~= Seq::<Seq<char>>::empty());
        assert(m.players.last() == u@);
    }
}

/// Removing a player everywhere leaves no queue of the chat holding them,
/// and touches nothing else: a queue the player was not in keeps its exact
/// contents, and every other chat is untouched.
pub proof fn lemma_remove_everywhere_clears(pre: State, post: State, cid: i64, name: Seq<char>)
    requires
        pre.wf(),
        rm_post(pre, post, cid, name),
    ensures
        forall|q: Seq<char>|
            !queue_players_of(#[trigger] post.spec_queue(cid, q)).contains(name),
        forall|q: Seq<char>|
            (#[trigger] pre.spec_queue(cid, q) matches Some(m) && !m.players.contains(name))
                ==> post.spec_queue(cid, q) == pre.spec_queue(cid, q),
        forall|c: i64, q: Seq<char>|
            c != cid ==> #[trigger] post.spec_queue(c, q) == pre.spec_queue(c, q),
{
    assert forall|q: Seq<char>|
        !queue_players_of(#[trigger] post.spec_queue(cid, q)).contains(name) by {
        assert(post.spec_queue(cid, q) == removed_lookup(pre.spec_queue(cid, q), name));
        match pre.spec_queue(cid, q) {
            None => {},
            Some(m) => {
                lemma_without_name_gone(m.players, name);
            },
        }
    }
    assert forall|q: Seq<char>|
        (#[trigger] pre.spec_queue(cid, q) matches Some(m) && !m.players.contains(name))
            implies post.spec_queue(cid, q) == pre.spec_queue(cid, q) by {
        assert(post.spec_queue(cid, q) == removed_lookup(pre.spec_queue(cid, q), name));
        lemma_wf_spec_queue(pre, cid, q);
        let m = pre.spec_queue(cid, q)->Some_0;
        lemma_filter_absent(m.players, name);
        assert(m.players.len() > 0);
        assert((QueueModel { players: m.players, timeout: m.timeout, add_cmd: m.add_cmd }) == m);
    }
}

} // verus!
