//! The queue state machine: queues of players per chat, the whole-system
//! snapshot, and its pure transition functions.

use vstd::prelude::*;
use vstd::seq_lib::*;
use crate::types::{ChatId, QueueId, QueueTime, Username};

verus! {

/// Fixed queue capacity: a queue is full once this many players signed up.
pub const QUEUE_SIZE: usize = 5;

/// Ghost description of a queue: the players' names in join order, the
/// expiry time and the join-command text.
pub struct QueueModel {
    pub players: Seq<Seq<char>>,
    pub timeout: QueueTime,
    pub add_cmd: Seq<char>,
}

/// Contains the ordered set of players who signed up for a queue, along
/// with the time at which the queue expires and the command text users
/// type to join it.
pub struct Queue {
    players: Vec<Username>,
    pub timeout: QueueTime,
    pub add_cmd: String,
}

impl Queue {
    /// Ghost snapshot of the whole queue.
    pub closed spec fn model(self) -> QueueModel {
        QueueModel {
            players: self.players@.map_values(|u: Username| u@),
            timeout: self.timeout,
            add_cmd: self.add_cmd@,
        }
    }

    /// The players' names in join order.
    pub open spec fn players_view(self) -> Seq<Seq<char>> {
        self.model().players
    }

    /// The expiry time, as seen by contracts.
    pub open spec fn spec_timeout(self) -> QueueTime {
        self.model().timeout
    }

    /// The join-command text, as seen by contracts.
    pub open spec fn spec_add_cmd(self) -> Seq<char> {
        self.model().add_cmd
    }

    /// Internal invariant: no player appears twice, and the expiry is a
    /// valid time of day.
    pub open spec fn wf(self) -> bool {
        queue_model_wf(self.model())
    }

    pub fn new(timeout: QueueTime, add_cmd: String) -> (q: Queue)
        ensures
            q.players_view() == Seq::<Seq<char>>::empty(),
            q.spec_timeout() == timeout,
            q.spec_add_cmd() == add_cmd@,
            timeout.wf() ==> q.wf(),
    {
        let q = Queue { timeout, players: Vec::new(), add_cmd };
        proof {
            assert(q.players_view() =~= Seq::<Seq<char>>::empty());
        }
        q
    }

    /// The expiry time.
    pub fn timeout(&self) -> (r: QueueTime)
        ensures
            r == self.spec_timeout(),
    {
        self.timeout
    }

    /// The players in join order, for read-only walks.
    pub fn players(&self) -> (r: &Vec<Username>)
        ensures
            r@.len() == self.players_view().len(),
            forall|k: int| 0 <= k < r@.len() ==> (#[trigger] r@[k])@ == self.players_view()[k],
    {
        &self.players
    }

    /// The join-command text.
    pub fn add_cmd(&self) -> (r: &String)
        ensures
            r@ == self.spec_add_cmd(),
    {
        &self.add_cmd
    }

    /// Return whether queue has players or not.
    pub fn has_players(&self) -> (r: bool)
        ensures
            r == (self.players_view().len() > 0),
    {
        !self.players.is_empty()
    }

    /// Return number of players in queue.
    pub fn num_players(&self) -> (n: usize)
        ensures
            n == self.players_view().len(),
    {
        self.players.len()
    }

    /// Return whether queue is full or not.
    pub fn is_full(&self) -> (r: bool)
        ensures
            r == (self.players_view().len() >= QUEUE_SIZE),
    {
        self.players.len() >= QUEUE_SIZE
    }

    /// Returns size of this queue.
    pub fn size(&self) -> (n: usize)
        ensures
            n == QUEUE_SIZE,
    {
        QUEUE_SIZE
    }

    /// Return whether the given player is in the queue.
    pub fn has_player(&self, username: &Username) -> (r: bool)
        ensures
            r == self.players_view().contains(username@),
    {
        let n = self.players.len();
        let mut i: usize = 0;
        while i < n
            invariant
                n == self.players@.len(),
                i <= n,
                forall|k: int| 0 <= k < i ==> self.players_view()[k] != username@,
            decreases n - i,
        {
            if &self.players[i] == username {
                assert(self.players_view()[i as int] == username@);
                return true;
            }
            i = i + 1;
        }
        false
    }

    /// Insert player by username; keeps the queue unchanged if the player
    /// is already in it.
    pub fn insert_player(&mut self, username: Username)
        ensures
            final(self).spec_timeout() == old(self).spec_timeout(),
            final(self).spec_add_cmd() == old(self).spec_add_cmd(),
            old(self).players_view().contains(username@) ==> final(self).players_view()
                == old(self).players_view(),
            !old(self).players_view().contains(username@) ==> final(self).players_view()
                == old(self).players_view().push(username@),
            old(self).wf() ==> final(self).wf(),
    {
        if !self.has_player(&username) {
            let ghost before = self.players_view();
            self.players.push(username);
            proof {
                assert(self.players_view() =~= before.push(username@));
            }
        }
    }

    /// Remove player by username; a no-op if the player is not in the
    /// queue.
    pub fn remove_player(&mut self, username: &Username)
        requires
            old(self).wf(),
        ensures
            final(self).spec_timeout() == old(self).spec_timeout(),
            final(self).spec_add_cmd() == old(self).spec_add_cmd(),
            final(self).players_view() == without_name(old(self).players_view(), username@),
            final(self).wf(),
    {
        let ghost before = self.players_view();
        let n = self.players.len();
        let mut i: usize = 0;
        while i < n
            invariant
                old(self).wf(),
                *self == *old(self),
                before == old(self).players_view(),
                distinct_names(before),
                n == self.players@.len(),
                i <= n,
                forall|k: int| 0 <= k < i ==> self.players_view()[k] != username@,
            decreases n - i,
        {
            if self.players[i] == *username {
                assert(self.players_view()[i as int] == username@);
                self.players.remove(i);
                proof {
                    before.remove_ensures(i as int);
                    assert(self.players_view() =~= before.remove(i as int)) by {
                        assert(forall|k: int| 0 <= k < self.players@.len()
                            ==> self.players_view()[k] == self.players@[k]@);
                    }
                    lemma_remove_is_filter(before, username@, i as int);
                    lemma_remove_keeps_distinct(before, i as int);
                    assert(self.players_view() == without_name(before, username@));
                }
                return ;
            }
            i = i + 1;
        }
        proof {
            assert(!before.contains(username@)) by {
                if before.contains(username@) {
                    let k = choose|k: int| 0 <= k < before.len() && before[k] == username@;
                }
            }
            lemma_filter_absent(before, username@);
        }
    }

    /// Returns lists of players split into players and reserve players:
    /// the first `QUEUE_SIZE` in join order, and, only if the queue holds
    /// more than that, the remainder as a separate reserve list.
    pub fn get_players(&self) -> (r: (Vec<Username>, Option<Vec<Username>>))
        ensures
            self.players_view().len() > QUEUE_SIZE ==> {
                &&& r.0@.map_values(|u: Username| u@) == self.players_view().take(QUEUE_SIZE as int)
                &&& r.1 matches Some(reserve) && reserve@.map_values(|u: Username| u@)
                    == self.players_view().skip(QUEUE_SIZE as int)
            },
            self.players_view().len() <= QUEUE_SIZE ==> {
                &&& r.0@.map_values(|u: Username| u@) == self.players_view()
                &&& r.1 is None
            },
    {
        let n = self.players.len();
        let cut = if n > QUEUE_SIZE {
            QUEUE_SIZE
        } else {
            n
        };
        let mut main: Vec<Username> = Vec::new();
        let mut i: usize = 0;
        while i < cut
            invariant
                cut <= n == self.players@.len(),
                i <= cut,
                main@.len() == i,
                forall|k: int| 0 <= k < i ==> main@[k]@ == self.players@[k]@,
            decreases cut - i,
        {
            main.push(self.players[i].clone());
            i = i + 1;
        }
        if n > QUEUE_SIZE {
            let mut reserve: Vec<Username> = Vec::new();
            let mut j: usize = QUEUE_SIZE;
            while j < n
                invariant
                    QUEUE_SIZE <= j <= n == self.players@.len(),
                    reserve@.len() == j - QUEUE_SIZE,
                    forall|k: int| 0 <= k < j - QUEUE_SIZE ==> reserve@[k]@
                        == self.players@[k + QUEUE_SIZE]@,
                decreases n - j,
            {
                reserve.push(self.players[j].clone());
                j = j + 1;
            }
            proof {
                assert(main@.map_values(|u: Username| u@) =~= self.players_view().take(
                    QUEUE_SIZE as int,
                ));
                assert(reserve@.map_values(|u: Username| u@) =~= self.players_view().skip(
                    QUEUE_SIZE as int,
                ));
            }
            (main, Some(reserve))
        } else {
            proof {
                assert(main@.map_values(|u: Username| u@) =~= self.players_view());
            }
            (main, None)
        }
    }
}

impl Clone for Queue {
    fn clone(&self) -> (r: Self)
        ensures
            r.model() == self.model(),
    {
        let n = self.players.len();
        let mut players: Vec<Username> = Vec::new();
        let mut i: usize = 0;
        while i < n
            invariant
                n == self.players@.len(),
                i <= n,
                players@.len() == i,
                forall|k: int| 0 <= k < i ==> players@[k]@ == self.players@[k]@,
            decreases n - i,
        {
            players.push(self.players[i].clone());
            i = i + 1;
        }
        let r = Queue { players, timeout: self.timeout, add_cmd: self.add_cmd.clone() };
        proof {
            assert(r.model().players =~= self.model().players);
            assert(r.model() == self.model());
        }
        r
    }
}

/// A queue description is well formed when no player appears twice and
/// its expiry is a valid time of day.
pub open spec fn queue_model_wf(m: QueueModel) -> bool {
    distinct_names(m.players) && m.timeout.wf()
}

/// No name occurs twice.
pub open spec fn distinct_names(names: Seq<Seq<char>>) -> bool {
    forall|i: int, j: int| 0 <= i < j < names.len() ==> names[i] != names[j]
}

/// The list with every occurrence of `name` dropped; join order of the
/// others is kept.
pub open spec fn without_name(names: Seq<Seq<char>>, name: Seq<char>) -> Seq<Seq<char>> {
    names.filter(|p: Seq<char>| p != name)
}

/// The players of a queue after one join-or-leave toggle of `name`.
pub open spec fn toggled_players(before: Seq<Seq<char>>, name: Seq<char>) -> Seq<Seq<char>> {
    if before.contains(name) {
        without_name(before, name)
    } else {
        before.push(name)
    }
}

/// Filtering a name out of a list that does not contain it changes
/// nothing.
pub proof fn lemma_filter_absent(names: Seq<Seq<char>>, name: Seq<char>)
    requires
        !names.contains(name),
    ensures
        without_name(names, name) == names,
    decreases names.len(),
{
    reveal(Seq::filter);
    if names.len() > 0 {
        assert(!names.drop_last().contains(name)) by {
            if names.drop_last().contains(name) {
                let k = choose|k: int|
                    0 <= k < names.drop_last().len() && names.drop_last()[k] == name;
                assert(names[k] == name);
            }
        }
        lemma_filter_absent(names.drop_last(), name);
        assert(names.last() != name) by {
            assert(names[names.len() - 1] == names.last());
        }
        assert(without_name(names, name) =~= names);
    } else {
        assert(without_name(names, name) =~= names);
    }
}

/// For a duplicate-free list, filtering out the name found at index `i`
/// is the same as removing that index.
pub proof fn lemma_remove_is_filter(names: Seq<Seq<char>>, name: Seq<char>, i: int)
    requires
        distinct_names(names),
        0 <= i < names.len(),
        names[i] == name,
    ensures
        names.remove(i) == without_name(names, name),
    decreases names.len(),
{
    reveal(Seq::filter);
    if i == names.len() - 1 {
        assert(!names.drop_last().contains(name)) by {
            if names.drop_last().contains(name) {
                let k = choose|k: int|
                    0 <= k < names.drop_last().len() && names.drop_last()[k] == name;
                assert(names[k] == names[i]);
            }
        }
        lemma_filter_absent(names.drop_last(), name);
        assert(names.remove(i) =~= names.drop_last());
        assert(without_name(names, name) =~= names.drop_last());
    } else {
        let prefix = names.drop_last();
        assert(distinct_names(prefix)) by {
            assert(forall|k: int| 0 <= k < prefix.len() ==> prefix[k] == names[k]);
        }
        assert(prefix[i] == name);
        lemma_remove_is_filter(prefix, name, i);
        assert(names.last() != name) by {
            assert(names[names.len() - 1] == names.last());
        }
        assert(names.remove(i) =~= prefix.remove(i).push(names.last()));
        assert(without_name(names, name) =~= without_name(prefix, name).push(names.last()));
    }
}

/// One queue of a chat, keyed by its identifier.
pub struct QueueEntry {
    pub id: QueueId,
    pub queue: Queue,
}

/// A chat separates queues by chat groups.
pub struct Chat {
    pub queues: Vec<QueueEntry>,
}

/// First queue description stored under `qid`, scanning from the front.
pub open spec fn lookup_queue(entries: Seq<QueueEntry>, qid: Seq<char>) -> Option<QueueModel>
    decreases entries.len(),
{
    if entries.len() == 0 {
        None
    } else if entries[0].id@ == qid {
        Some(entries[0].queue.model())
    } else {
        lookup_queue(entries.drop_first(), qid)
    }
}

/// Whether some entry is stored under `qid`.
pub open spec fn has_queue_id(entries: Seq<QueueEntry>, qid: Seq<char>) -> bool {
    exists|k: int| 0 <= k < entries.len() && entries[k].id@ == qid
}

/// No queue identifier occurs twice.
pub open spec fn distinct_queue_ids(entries: Seq<QueueEntry>) -> bool {
    forall|i: int, j: int| 0 <= i < j < entries.len() ==> entries[i].id@ != entries[j].id@
}

/// What every queue stored in a chat satisfies: well-formed, never empty,
/// and the instant queue is never at or past capacity (it fires the moment
/// it fills up).
pub open spec fn queue_entry_wf(e: QueueEntry) -> bool {
    &&& e.queue.wf()
    &&& e.queue.players_view().len() > 0
    &&& e.id@.len() == 0 ==> e.queue.players_view().len() < QUEUE_SIZE
}

impl Chat {
    pub open spec fn wf(self) -> bool {
        &&& distinct_queue_ids(self.queues@)
        &&& forall|k: int| 0 <= k < self.queues@.len() ==> queue_entry_wf(#[trigger] self.queues@[k])
    }

    pub open spec fn spec_lookup(self, qid: Seq<char>) -> Option<QueueModel> {
        lookup_queue(self.queues@, qid)
    }

    pub fn new() -> (c: Chat)
        ensures
            c.queues@ == Seq::<QueueEntry>::empty(),
            c.wf(),
    {
        Chat { queues: Vec::new() }
    }

    /// Index of the entry stored under the given identifier, if any.
    pub fn find_queue(&self, queue_id: &QueueId) -> (r: Option<usize>)
        ensures
            match r {
                Some(i) => i < self.queues@.len() && self.queues@[i as int].id@ == queue_id@
                    && (forall|k: int| 0 <= k < i ==> self.queues@[k].id@ != queue_id@),
                None => !has_queue_id(self.queues@, queue_id@),
            },
    {
        let n = self.queues.len();
        let mut i: usize = 0;
        while i < n
            invariant
                n == self.queues@.len(),
                i <= n,
                forall|k: int| 0 <= k < i ==> self.queues@[k].id@ != queue_id@,
            decreases n - i,
        {
            if self.queues[i].id == *queue_id {
                return Some(i);
            }
            i = i + 1;
        }
        None
    }
}

impl Clone for Chat {
    fn clone(&self) -> (r: Self)
        ensures
            queues_similar(self.queues@, r.queues@),
    {
        let n = self.queues.len();
        let mut queues: Vec<QueueEntry> = Vec::new();
        let mut i: usize = 0;
        while i < n
            invariant
                n == self.queues@.len(),
                i <= n,
                queues@.len() == i,
                forall|k: int| 0 <= k < i ==> (#[trigger] self.queues@[k]).id@ == queues@[k].id@
                    && self.queues@[k].queue.model() == queues@[k].queue.model(),
            decreases n - i,
        {
            let e = &self.queues[i];
            queues.push(QueueEntry { id: e.id.clone(), queue: e.queue.clone() });
            i = i + 1;
        }
        Chat { queues }
    }
}

impl Default for Chat {
    fn default() -> (c: Chat)
        ensures
            c.queues@ == Seq::<QueueEntry>::empty(),
            c.wf(),
    {
        Chat::new()
    }
}

/// First-match lookup agrees with the index that a front-to-back scan
/// finds.
pub proof fn lemma_lookup_at_index(entries: Seq<QueueEntry>, i: int)
    requires
        0 <= i < entries.len(),
        forall|k: int| 0 <= k < i ==> entries[k].id@ != entries[i].id@,
    ensures
        lookup_queue(entries, entries[i].id@) == Some(entries[i].queue.model()),
    decreases entries.len(),
{
    if i > 0 {
        lemma_lookup_at_index(entries.drop_first(), i - 1);
    }
}

/// A lookup that misses every entry returns nothing.
pub proof fn lemma_lookup_absent(entries: Seq<QueueEntry>, qid: Seq<char>)
    requires
        !has_queue_id(entries, qid),
    ensures
        lookup_queue(entries, qid) is None,
    decreases entries.len(),
{
    if entries.len() > 0 {
        assert(entries[0].id@ != qid);
        assert(!has_queue_id(entries.drop_first(), qid)) by {
            if has_queue_id(entries.drop_first(), qid) {
                let k = choose|k: int|
                    0 <= k < entries.drop_first().len() && entries.drop_first()[k].id@ == qid;
                assert(entries[k + 1].id@ == qid);
            }
        }
        lemma_lookup_absent(entries.drop_first(), qid);
    }
}

/// A successful lookup names some entry.
pub proof fn lemma_lookup_finds(entries: Seq<QueueEntry>, qid: Seq<char>)
    requires
        lookup_queue(entries, qid) is Some,
    ensures
        has_queue_id(entries, qid),
        exists|k: int|
            0 <= k < entries.len() && entries[k].id@ == qid && lookup_queue(entries, qid)
                == Some(entries[k].queue.model()),
    decreases entries.len(),
{
    if entries.len() > 0 {
        if entries[0].id@ == qid {
            assert(entries[0].id@ == qid && lookup_queue(entries, qid) == Some(
                entries[0].queue.model(),
            ));
        } else {
            lemma_lookup_finds(entries.drop_first(), qid);
            let k = choose|k: int|
                0 <= k < entries.drop_first().len() && entries.drop_first()[k].id@ == qid
                    && lookup_queue(entries.drop_first(), qid) == Some(
                    entries.drop_first()[k].queue.model(),
                );
            assert(entries[k + 1].id@ == qid && lookup_queue(entries, qid) == Some(
                entries[k + 1].queue.model(),
            ));
        }
    }
}

/// Appending an entry leaves earlier identifiers alone and serves the new
/// one only where the list had none.
pub proof fn lemma_lookup_push(entries: Seq<QueueEntry>, e: QueueEntry, qid: Seq<char>)
    ensures
        lookup_queue(entries.push(e), qid) == (if lookup_queue(entries, qid) is Some {
            lookup_queue(entries, qid)
        } else if e.id@ == qid {
            Some(e.queue.model())
        } else {
            None
        }),
    decreases entries.len(),
{
    reveal_with_fuel(lookup_queue, 3);
    if entries.len() == 0 {
        assert(entries.push(e)[0] == e);
        assert(entries.push(e).drop_first() =~= Seq::<QueueEntry>::empty());
        assert(lookup_queue(entries.push(e).drop_first(), qid) is None);
    } else {
        assert(entries.push(e)[0] == entries[0]);
        assert(entries.push(e).drop_first() =~= entries.drop_first().push(e));
        lemma_lookup_push(entries.drop_first(), e, qid);
    }
}

/// Removing the first entry stored under an identifier removes exactly
/// that identifier from view.
pub proof fn lemma_lookup_remove(entries: Seq<QueueEntry>, i: int, qid: Seq<char>)
    requires
        distinct_queue_ids(entries),
        0 <= i < entries.len(),
    ensures
        lookup_queue(entries.remove(i), qid) == (if entries[i].id@ == qid {
            None
        } else {
            lookup_queue(entries, qid)
        }),
    decreases entries.len(),
{
    if i == 0 {
        assert(entries.remove(0) =~= entries.drop_first());
        if entries[0].id@ == qid {
            assert(!has_queue_id(entries.drop_first(), qid)) by {
                if has_queue_id(entries.drop_first(), qid) {
                    let k = choose|k: int|
                        0 <= k < entries.drop_first().len() && entries.drop_first()[k].id@ == qid;
                    assert(entries[k + 1].id@ == entries[0].id@);
                }
            }
            lemma_lookup_absent(entries.drop_first(), qid);
        }
    } else {
        assert(entries.remove(i)[0] == entries[0]);
        assert(entries.remove(i).drop_first() =~= entries.drop_first().remove(i - 1));
        assert(distinct_queue_ids(entries.drop_first())) by {
            assert(forall|k: int|
                0 <= k < entries.drop_first().len() ==> entries.drop_first()[k] == entries[k + 1]);
        }
        lemma_lookup_remove(entries.drop_first(), i - 1, qid);
        assert(entries.drop_first()[i - 1] == entries[i]);
        if entries[i].id@ == qid {
            assert(entries[0].id@ != qid);
        }
    }
}

/// Inserting an entry whose identifier the list does not hold serves that
/// identifier and leaves every other one alone.
pub proof fn lemma_lookup_insert(entries: Seq<QueueEntry>, i: int, e: QueueEntry, qid: Seq<char>)
    requires
        0 <= i <= entries.len(),
        !has_queue_id(entries, e.id@),
    ensures
        lookup_queue(entries.insert(i, e), qid) == (if e.id@ == qid {
            Some(e.queue.model())
        } else {
            lookup_queue(entries, qid)
        }),
    decreases entries.len(),
{
    if i == 0 {
        assert(entries.insert(0, e)[0] == e);
        assert(entries.insert(0, e).drop_first() =~= entries);
    } else {
        assert(entries.insert(i, e)[0] == entries[0]);
        assert(entries.insert(i, e).drop_first() =~= entries.drop_first().insert(i - 1, e));
        assert(!has_queue_id(entries.drop_first(), e.id@)) by {
            if has_queue_id(entries.drop_first(), e.id@) {
                let k = choose|k: int|
                    0 <= k < entries.drop_first().len() && entries.drop_first()[k].id@ == e.id@;
                assert(entries[k + 1].id@ == e.id@);
            }
        }
        lemma_lookup_insert(entries.drop_first(), i - 1, e, qid);
        if e.id@ == qid {
            assert(entries[0].id@ != qid);
        }
    }
}

/// Removing an index preserves freedom from duplicates.
pub proof fn lemma_remove_keeps_distinct(names: Seq<Seq<char>>, i: int)
    requires
        distinct_names(names),
        0 <= i < names.len(),
    ensures
        distinct_names(names.remove(i)),
{
    let out = names.remove(i);
    assert forall|a: int, b: int| 0 <= a < b < out.len() implies out[a] != out[b] by {
        let a0 = if a < i {
            a
        } else {
            a + 1
        };
        let b0 = if b < i {
            b
        } else {
            b + 1
        };
        assert(out[a] == names[a0]);
        assert(out[b] == names[b0]);
    }
}

/// Pointwise sameness of two queue lists: same identifiers in the same
/// order, and equal queue descriptions.
pub open spec fn queues_similar(a: Seq<QueueEntry>, b: Seq<QueueEntry>) -> bool {
    &&& a.len() == b.len()
    &&& forall|k: int|
        0 <= k < a.len() ==> (#[trigger] a[k]).id@ == b[k].id@ && a[k].queue.model()
            == b[k].queue.model()
}

/// Lookup cannot tell two pointwise-same queue lists apart.
pub proof fn lemma_lookup_similar(a: Seq<QueueEntry>, b: Seq<QueueEntry>, qid: Seq<char>)
    requires
        queues_similar(a, b),
    ensures
        lookup_queue(a, qid) == lookup_queue(b, qid),
    decreases a.len(),
{
    if a.len() > 0 {
        assert(queues_similar(a.drop_first(), b.drop_first())) by {
            assert(forall|k: int|
                0 <= k < a.drop_first().len() ==> a.drop_first()[k] == a[k + 1] && b.drop_first()[k]
                    == b[k + 1]);
        }
        lemma_lookup_similar(a.drop_first(), b.drop_first(), qid);
    }
}

/// The queues of one chat group, keyed by the group's identifier.
pub struct ChatEntry {
    pub id: ChatId,
    pub chat: Chat,
}

/// (De)Serializable state containing chats with active queues.
pub struct State {
    pub chats: Vec<ChatEntry>,
}

/// First chat stored under `cid`, scanning from the front.
pub open spec fn lookup_chat(entries: Seq<ChatEntry>, cid: i64) -> Option<Seq<QueueEntry>>
    decreases entries.len(),
{
    if entries.len() == 0 {
        None
    } else if entries[0].id.0 == cid {
        Some(entries[0].chat.queues@)
    } else {
        lookup_chat(entries.drop_first(), cid)
    }
}

/// Whether some chat is stored under `cid`.
pub open spec fn has_chat_id(entries: Seq<ChatEntry>, cid: i64) -> bool {
    exists|k: int| 0 <= k < entries.len() && entries[k].id.0 == cid
}

/// No chat identifier occurs twice.
pub open spec fn distinct_chat_ids(entries: Seq<ChatEntry>) -> bool {
    forall|i: int, j: int| 0 <= i < j < entries.len() ==> entries[i].id.0 != entries[j].id.0
}

impl State {
    /// Internal invariant: chat identifiers are unique and every chat is
    /// well formed.
    pub open spec fn wf(self) -> bool {
        &&& distinct_chat_ids(self.chats@)
        &&& forall|k: int| 0 <= k < self.chats@.len() ==> (#[trigger] self.chats@[k]).chat.wf()
    }

    /// The queue list of the chat stored under `cid`, if any.
    pub open spec fn spec_chat(self, cid: i64) -> Option<Seq<QueueEntry>> {
        lookup_chat(self.chats@, cid)
    }

    /// The queue stored under `qid` in the chat stored under `cid`: the
    /// whole system state, read pointwise.
    pub open spec fn spec_queue(self, cid: i64, qid: Seq<char>) -> Option<QueueModel> {
        match self.spec_chat(cid) {
            None => None,
            Some(queues) => lookup_queue(queues, qid),
        }
    }

    pub fn new() -> (s: State)
        ensures
            s.chats@ == Seq::<ChatEntry>::empty(),
            s.wf(),
            forall|cid: i64, qid: Seq<char>| s.spec_queue(cid, qid) is None,
    {
        State { chats: Vec::new() }
    }

    /// Index of the chat stored under the given identifier, if any.
    fn find_chat(&self, chat_id: &ChatId) -> (r: Option<usize>)
        ensures
            match r {
                Some(i) => i < self.chats@.len() && self.chats@[i as int].id.0 == chat_id.0
                    && (forall|k: int| 0 <= k < i ==> self.chats@[k].id.0 != chat_id.0),
                None => !has_chat_id(self.chats@, chat_id.0),
            },
    {
        let n = self.chats.len();
        let mut i: usize = 0;
        while i < n
            invariant
                n == self.chats@.len(),
                i <= n,
                forall|k: int| 0 <= k < i ==> self.chats@[k].id.0 != chat_id.0,
            decreases n - i,
        {
            if self.chats[i].id.0 == chat_id.0 {
                return Some(i);
            }
            i = i + 1;
        }
        None
    }
}

impl Clone for State {
    fn clone(&self) -> (r: Self)
        ensures
            states_similar(*self, r),
    {
        let n = self.chats.len();
        let mut chats: Vec<ChatEntry> = Vec::new();
        let mut i: usize = 0;
        while i < n
            invariant
                n == self.chats@.len(),
                i <= n,
                chats@.len() == i,
                forall|k: int| 0 <= k < i ==> (#[trigger] chats@[k]).id == self.chats@[k].id
                    && queues_similar(chats@[k].chat.queues@, self.chats@[k].chat.queues@),
            decreases n - i,
        {
            let e = &self.chats[i];
            chats.push(ChatEntry { id: e.id, chat: e.chat.clone() });
            i = i + 1;
        }
        State { chats }
    }
}

impl Default for State {
    fn default() -> (s: State)
        ensures
            s.chats@ == Seq::<ChatEntry>::empty(),
            s.wf(),
            forall|cid: i64, qid: Seq<char>| s.spec_queue(cid, qid) is None,
    {
        State::new()
    }
}

/// Pointwise sameness of two states: same chat identifiers in the same
/// order, over pointwise-same queue lists.
pub open spec fn states_similar(a: State, b: State) -> bool {
    &&& a.chats@.len() == b.chats@.len()
    &&& forall|k: int|
        0 <= k < a.chats@.len() ==> (#[trigger] a.chats@[k]).id == b.chats@[k].id
            && queues_similar(a.chats@[k].chat.queues@, b.chats@[k].chat.queues@)
}

/// Pointwise-same states hold the same queues under every address, and one
/// is well formed exactly when the other is.
pub proof fn lemma_similar_states_agree(a: State, b: State)
    requires
        states_similar(a, b),
    ensures
        forall|cid: i64, qid: Seq<char>| #[trigger] a.spec_queue(cid, qid) == b.spec_queue(
            cid,
            qid,
        ),
        a.wf() <==> b.wf(),
{
    assert forall|cid: i64, qid: Seq<char>| #[trigger] a.spec_queue(cid, qid) == b.spec_queue(
        cid,
        qid,
    ) by {
        lemma_lookup_chat_similar(a.chats@, b.chats@, cid);
        match lookup_chat(a.chats@, cid) {
            None => {},
            Some(qs) => {
                let qs2 = choose|qs2: Seq<QueueEntry>|
                    lookup_chat(b.chats@, cid) == Some(qs2) && queues_similar(qs, qs2);
                lemma_lookup_similar(qs, qs2, qid);
            },
        }
    }
    assert(a.wf() <==> b.wf()) by {
        assert(states_similar(b, a)) by {
            assert forall|k: int|
                0 <= k < b.chats@.len() implies ((#[trigger] b.chats@[k]).id == a.chats@[k].id
                && queues_similar(b.chats@[k].chat.queues@, a.chats@[k].chat.queues@)) by {
                let aq = a.chats@[k].chat.queues@;
                let bq = b.chats@[k].chat.queues@;
                assert(a.chats@[k].id == b.chats@[k].id && queues_similar(aq, bq));
                assert forall|m: int|
                    0 <= m < bq.len() implies ((#[trigger] bq[m]).id@ == aq[m].id@
                    && bq[m].queue.model() == aq[m].queue.model()) by {
                    assert(aq[m].id@ == bq[m].id@ && aq[m].queue.model() == bq[m].queue.model());
                }
            }
        }
        if a.wf() {
            lemma_similar_wf(a, b);
        }
        if b.wf() {
            lemma_similar_wf(b, a);
        }
    }
}

/// Helper: pointwise sameness is symmetric for well-formedness.
proof fn lemma_similar_wf(a: State, b: State)
    requires
        states_similar(a, b),
        a.wf(),
    ensures
        b.wf(),
{
    assert(distinct_chat_ids(b.chats@)) by {
        assert forall|i: int, j: int|
            0 <= i < j < b.chats@.len() implies b.chats@[i].id.0 != b.chats@[j].id.0 by {
            assert(a.chats@[i].id == b.chats@[i].id);
            assert(a.chats@[j].id == b.chats@[j].id);
        }
    }
    assert forall|k: int| 0 <= k < b.chats@.len() implies (#[trigger] b.chats@[k]).chat.wf() by {
        assert(a.chats@[k].chat.wf());
        let aq = a.chats@[k].chat.queues@;
        let bq = b.chats@[k].chat.queues@;
        assert(distinct_queue_ids(bq)) by {
            assert forall|i: int, j: int|
                0 <= i < j < bq.len() implies bq[i].id@ != bq[j].id@ by {
                assert(aq[i].id@ == bq[i].id@);
                assert(aq[j].id@ == bq[j].id@);
            }
        }
        assert forall|m: int| 0 <= m < bq.len() implies queue_entry_wf(#[trigger] bq[m]) by {
            assert(queue_entry_wf(aq[m]));
            assert(aq[m].id@ == bq[m].id@);
            assert(aq[m].queue.model() == bq[m].queue.model());
        }
    }
}

/// Chat lookup on pointwise-same states returns pointwise-same queue
/// lists.
pub proof fn lemma_lookup_chat_similar(a: Seq<ChatEntry>, b: Seq<ChatEntry>, cid: i64)
    requires
        a.len() == b.len(),
        forall|k: int|
            0 <= k < a.len() ==> (#[trigger] a[k]).id == b[k].id && queues_similar(
                a[k].chat.queues@,
                b[k].chat.queues@,
            ),
    ensures
        lookup_chat(a, cid) is Some <==> lookup_chat(b, cid) is Some,
        lookup_chat(a, cid) matches Some(qs) ==> lookup_chat(b, cid) matches Some(qs2)
            && queues_similar(qs, qs2),
    decreases a.len(),
{
    if a.len() > 0 {
        if a[0].id.0 == cid {
        } else {
            assert(forall|k: int|
                0 <= k < a.drop_first().len() ==> a.drop_first()[k] == a[k + 1]
                    && b.drop_first()[k] == b[k + 1]);
            lemma_lookup_chat_similar(a.drop_first(), b.drop_first(), cid);
        }
    }
}

/// The operation that a toggle performed, carrying the player it acted on.
pub enum AddRemovePlayerOp {
    PlayerAdded(Username),
    PlayerRemoved(Username),
}

/// Text shown to users for a toggle operation.
pub open spec fn spec_op_text(op: AddRemovePlayerOp) -> Seq<char> {
    match op {
        AddRemovePlayerOp::PlayerAdded(u) => "Added "@ + u@,
        AddRemovePlayerOp::PlayerRemoved(u) => "Removed "@ + u@,
    }
}

impl AddRemovePlayerOp {
    /// Human-readable description: "Added <player>" or "Removed <player>".
    pub fn describe(&self) -> (r: String)
        ensures
            r@ == spec_op_text(*self),
    {
        match self {
            AddRemovePlayerOp::PlayerAdded(u) => {
                let mut s = String::from_str("Added ");
                s.append(u.name());
                s
            },
            AddRemovePlayerOp::PlayerRemoved(u) => {
                let mut s = String::from_str("Removed ");
                s.append(u.name());
                s
            },
        }
    }
}

/// How a toggle left the queue: emptied (and dropped), still open, or at
/// capacity.
pub enum AddRemovePlayerResult {
    QueueEmpty(Queue),
    PlayerQueued(Queue),
    QueueFull(Queue),
}

/// The players of a queue that may not exist yet.
pub open spec fn queue_players_of(before: Option<QueueModel>) -> Seq<Seq<char>> {
    match before {
        Some(m) => m.players,
        None => Seq::empty(),
    }
}

/// The queue a toggle works on: the stored one, or a fresh empty queue
/// with the supplied expiry and join command.  An existing queue keeps its
/// own expiry: later joiners never move it.
pub open spec fn queue_or_new(
    before: Option<QueueModel>,
    timeout: QueueTime,
    add_cmd: Seq<char>,
) -> QueueModel {
    match before {
        Some(m) => m,
        None => QueueModel { players: Seq::empty(), timeout, add_cmd },
    }
}

/// The queue after toggling `name`, before deciding whether it stays.
pub open spec fn toggled_queue(
    before: Option<QueueModel>,
    timeout: QueueTime,
    add_cmd: Seq<char>,
    name: Seq<char>,
) -> QueueModel {
    let q0 = queue_or_new(before, timeout, add_cmd);
    QueueModel { players: toggled_players(q0.players, name), timeout: q0.timeout, add_cmd: q0.add_cmd }
}

/// Whether the toggled queue leaves the chat: it emptied, or it is the
/// instant queue and reached capacity.
pub open spec fn toggle_fires(after: QueueModel, qid: Seq<char>) -> bool {
    after.players.len() == 0 || (qid.len() == 0 && after.players.len() >= QUEUE_SIZE)
}

/// What is stored under `qid` after one toggle.
pub open spec fn toggled_lookup(
    before: Option<QueueModel>,
    qid: Seq<char>,
    timeout: QueueTime,
    add_cmd: Seq<char>,
    name: Seq<char>,
) -> Option<QueueModel> {
    let after = toggled_queue(before, timeout, add_cmd, name);
    if toggle_fires(after, qid) {
        None
    } else {
        Some(after)
    }
}

/// The toggle's result descriptors, classified exactly: the operation says
/// whether the player joined or left, and the outcome carries the queue
/// snapshot at the moment of evaluation.
pub open spec fn toggle_classified(
    before: Option<QueueModel>,
    timeout: QueueTime,
    add_cmd: Seq<char>,
    username: Username,
    res: AddRemovePlayerResult,
    op: AddRemovePlayerOp,
) -> bool {
    let after = toggled_queue(before, timeout, add_cmd, username@);
    &&& (queue_players_of(before).contains(username@) ==> op == AddRemovePlayerOp::PlayerRemoved(
        username,
    ))
    &&& (!queue_players_of(before).contains(username@) ==> op == AddRemovePlayerOp::PlayerAdded(
        username,
    ))
    &&& (after.players.len() == 0 ==> (res matches AddRemovePlayerResult::QueueEmpty(q)
        && q.model() == after))
    &&& (after.players.len() >= QUEUE_SIZE ==> (res matches AddRemovePlayerResult::QueueFull(q)
        && q.model() == after))
    &&& (0 < after.players.len() < QUEUE_SIZE ==> (res
        matches AddRemovePlayerResult::PlayerQueued(q) && q.model() == after))
}

/// Relation between the states before and after one toggle: the addressed
/// queue is replaced by its toggled form, every other queue in every chat
/// is untouched.
pub open spec fn toggle_post(
    pre: State,
    post: State,
    cid: i64,
    qid: Seq<char>,
    timeout: QueueTime,
    add_cmd: Seq<char>,
    name: Seq<char>,
) -> bool {
    &&& forall|c: i64, q: Seq<char>|
        c != cid || q != qid ==> #[trigger] post.spec_queue(c, q) == pre.spec_queue(c, q)
    &&& post.spec_queue(cid, qid) == toggled_lookup(
        pre.spec_queue(cid, qid),
        qid,
        timeout,
        add_cmd,
        name,
    )
}

/// First-match chat lookup agrees with the index a front-to-back scan
/// finds.
pub proof fn lemma_lookup_chat_at_index(entries: Seq<ChatEntry>, i: int)
    requires
        0 <= i < entries.len(),
        forall|k: int| 0 <= k < i ==> entries[k].id.0 != entries[i].id.0,
    ensures
        lookup_chat(entries, entries[i].id.0) == Some(entries[i].chat.queues@),
    decreases entries.len(),
{
    if i > 0 {
        lemma_lookup_chat_at_index(entries.drop_first(), i - 1);
    }
}

/// A chat lookup that misses every entry returns nothing.
pub proof fn lemma_lookup_chat_absent(entries: Seq<ChatEntry>, cid: i64)
    requires
        !has_chat_id(entries, cid),
    ensures
        lookup_chat(entries, cid) is None,
    decreases entries.len(),
{
    if entries.len() > 0 {
        assert(entries[0].id.0 != cid);
        assert(!has_chat_id(entries.drop_first(), cid)) by {
            if has_chat_id(entries.drop_first(), cid) {
                let k = choose|k: int|
                    0 <= k < entries.drop_first().len() && entries.drop_first()[k].id.0 == cid;
                assert(entries[k + 1].id.0 == cid);
            }
        }
        lemma_lookup_chat_absent(entries.drop_first(), cid);
    }
}

/// Removing the chat stored at an index removes exactly its identifier
/// from view.
pub proof fn lemma_lookup_chat_remove(entries: Seq<ChatEntry>, i: int, cid: i64)
    requires
        distinct_chat_ids(entries),
        0 <= i < entries.len(),
    ensures
        lookup_chat(entries.remove(i), cid) == (if entries[i].id.0 == cid {
            None
        } else {
            lookup_chat(entries, cid)
        }),
    decreases entries.len(),
{
    if i == 0 {
        assert(entries.remove(0) =~= entries.drop_first());
        if entries[0].id.0 == cid {
            assert(!has_chat_id(entries.drop_first(), cid)) by {
                if has_chat_id(entries.drop_first(), cid) {
                    let k = choose|k: int|
                        0 <= k < entries.drop_first().len() && entries.drop_first()[k].id.0 == cid;
                    assert(entries[k + 1].id.0 == entries[0].id.0);
                }
            }
            lemma_lookup_chat_absent(entries.drop_first(), cid);
        }
    } else {
        assert(entries.remove(i)[0] == entries[0]);
        assert(entries.remove(i).drop_first() =~= entries.drop_first().remove(i - 1));
        assert(distinct_chat_ids(entries.drop_first())) by {
            assert(forall|k: int|
                0 <= k < entries.drop_first().len() ==> entries.drop_first()[k] == entries[k + 1]);
        }
        lemma_lookup_chat_remove(entries.drop_first(), i - 1, cid);
        assert(entries.drop_first()[i - 1] == entries[i]);
        if entries[i].id.0 == cid {
            assert(entries[0].id.0 != cid);
        }
    }
}

/// Inserting a chat whose identifier the list does not hold serves that
/// identifier and leaves every other one alone.
pub proof fn lemma_lookup_chat_insert(entries: Seq<ChatEntry>, i: int, e: ChatEntry, cid: i64)
    requires
        0 <= i <= entries.len(),
        !has_chat_id(entries, e.id.0),
    ensures
        lookup_chat(entries.insert(i, e), cid) == (if e.id.0 == cid {
            Some(e.chat.queues@)
        } else {
            lookup_chat(entries, cid)
        }),
    decreases entries.len(),
{
    reveal_with_fuel(lookup_chat, 3);
    if i == 0 {
        assert(entries.insert(0, e)[0] == e);
        assert(entries.insert(0, e).drop_first() =~= entries);
    } else {
        assert(entries.insert(i, e)[0] == entries[0]);
        assert(entries.insert(i, e).drop_first() =~= entries.drop_first().insert(i - 1, e));
        assert(!has_chat_id(entries.drop_first(), e.id.0)) by {
            if has_chat_id(entries.drop_first(), e.id.0) {
                let k = choose|k: int|
                    0 <= k < entries.drop_first().len() && entries.drop_first()[k].id.0 == e.id.0;
                assert(entries[k + 1].id.0 == e.id.0);
            }
        }
        lemma_lookup_chat_insert(entries.drop_first(), i - 1, e, cid);
        if e.id.0 == cid {
            assert(entries[0].id.0 != cid);
        }
    }
}

impl Chat {
    /// Toggle `username`'s membership in the queue stored under
    /// `queue_id`: create the queue on demand, add the player if absent,
    /// remove them if present, then drop the queue when it emptied or when
    /// a full instant queue fires.
    pub fn toggle(
        &mut self,
        queue_id: &QueueId,
        add_cmd: String,
        timeout: QueueTime,
        username: Username,
    ) -> (r: (AddRemovePlayerResult, AddRemovePlayerOp))
        requires
            old(self).wf(),
            timeout.wf(),
        ensures
            final(self).wf(),
            forall|q: Seq<char>|
                q != queue_id@ ==> #[trigger] lookup_queue(final(self).queues@, q) == lookup_queue(
                    old(self).queues@,
                    q,
                ),
            lookup_queue(final(self).queues@, queue_id@) == toggled_lookup(
                lookup_queue(old(self).queues@, queue_id@),
                queue_id@,
                timeout,
                add_cmd@,
                username@,
            ),
            toggle_classified(
                lookup_queue(old(self).queues@, queue_id@),
                timeout,
                add_cmd@,
                username,
                r.0,
                r.1,
            ),
    {
        let ghost entries0 = self.queues@;
        let ghost before = lookup_queue(entries0, queue_id@);
        match self.find_queue(queue_id) {
            Some(qi) => {
                proof {
                    lemma_lookup_at_index(entries0, qi as int);
                }
                let mut qe = self.queues.remove(qi);
                let ghost entries1 = self.queues@;
                proof {
                    assert(queue_entry_wf(qe));
                    assert(!has_queue_id(entries1, queue_id@)) by {
                        if has_queue_id(entries1, queue_id@) {
                            let k = choose|k: int|
                                0 <= k < entries1.len() && entries1[k].id@ == queue_id@;
                            if k < qi {
                                assert(entries0[k].id@ == entries0[qi as int].id@);
                            } else {
                                assert(entries0[k + 1].id@ == entries0[qi as int].id@);
                            }
                        }
                    }
                    assert(distinct_queue_ids(entries1)) by {
                        assert forall|a: int, b: int|
                            0 <= a < b < entries1.len() implies entries1[a].id@ != entries1[b].id@ by {
                            let a0 = if a < qi {
                                a
                            } else {
                                a + 1
                            };
                            let b0 = if b < qi {
                                b
                            } else {
                                b + 1
                            };
                            assert(entries1[a] == entries0[a0]);
                            assert(entries1[b] == entries0[b0]);
                        }
                    }
                    assert(forall|k: int|
                        0 <= k < entries1.len() ==> queue_entry_wf(#[trigger] entries1[k])) by {
                        assert(forall|k: int|
                            0 <= k < entries1.len() ==> entries1[k] == (if k < qi {
                                entries0[k]
                            } else {
                                entries0[k + 1]
                            }));
                    }
                }
                let op = if qe.queue.has_player(&username) {
                    qe.queue.remove_player(&username);
                    AddRemovePlayerOp::PlayerRemoved(username)
                } else {
                    qe.queue.insert_player(username.clone());
                    AddRemovePlayerOp::PlayerAdded(username)
                };
                let ghost after = toggled_queue(before, timeout, add_cmd@, username@);
                proof {
                    assert(qe.queue.model() == after);
                }
                let count = qe.queue.num_players();
                if count == 0 {
                    proof {
                        assert forall|q: Seq<char>| #[trigger] lookup_queue(self.queues@, q)
                            == (if q == queue_id@ {
                            None
                        } else {
                            lookup_queue(entries0, q)
                        }) by {
                            lemma_lookup_remove(entries0, qi as int, q);
                        }
                    }
                    (AddRemovePlayerResult::QueueEmpty(qe.queue), op)
                } else {
                    let keep = if count >= QUEUE_SIZE {
                        !queue_id.is_instant_queue()
                    } else {
                        true
                    };
                    if keep {
                        let snap = qe.queue.clone();
                        let ghost qe2 = qe;
                        self.queues.insert(qi, qe);
                        proof {
                            assert forall|q: Seq<char>| #[trigger] lookup_queue(self.queues@, q)
                                == (if q == queue_id@ {
                                Some(after)
                            } else {
                                lookup_queue(entries0, q)
                            }) by {
                                lemma_lookup_insert(entries1, qi as int, qe2, q);
                                lemma_lookup_remove(entries0, qi as int, q);
                            }
                            assert(distinct_queue_ids(self.queues@)) by {
                                assert forall|a: int, b: int|
                                    0 <= a < b < self.queues@.len() implies self.queues@[a].id@
                                    != self.queues@[b].id@ by {
                                    if a == qi || b == qi {
                                        if a == qi {
                                            assert(self.queues@[b] == entries1[b - 1]);
                                        }
                                        if b == qi {
                                            assert(self.queues@[a] == entries1[a]);
                                        }
                                    } else {
                                        let a0 = if a < qi {
                                            a
                                        } else {
                                            a - 1
                                        };
                                        let b0 = if b < qi {
                                            b
                                        } else {
                                            b - 1
                                        };
                                        assert(self.queues@[a] == entries1[a0]);
                                        assert(self.queues@[b] == entries1[b0]);
                                    }
                                }
                            }
                            assert(forall|k: int|
                                0 <= k < self.queues@.len() ==> queue_entry_wf(
                                    #[trigger] self.queues@[k],
                                )) by {
                                assert(queue_entry_wf(qe2));
                                assert(forall|k: int|
                                    0 <= k < self.queues@.len() ==> self.queues@[k] == (if k < qi {
                                        entries1[k]
                                    } else if k == qi {
                                        qe2
                                    } else {
                                        entries1[k - 1]
                                    }));
                            }
                        }
                        if count >= QUEUE_SIZE {
                            (AddRemovePlayerResult::QueueFull(snap), op)
                        } else {
                            (AddRemovePlayerResult::PlayerQueued(snap), op)
                        }
                    } else {
                        proof {
                            assert forall|q: Seq<char>| #[trigger] lookup_queue(self.queues@, q)
                                == (if q == queue_id@ {
                                None
                            } else {
                                lookup_queue(entries0, q)
                            }) by {
                                lemma_lookup_remove(entries0, qi as int, q);
                            }
                        }
                        (AddRemovePlayerResult::QueueFull(qe.queue), op)
                    }
                }
            },
            None => {
                proof {
                    lemma_lookup_absent(entries0, queue_id@);
                }
                let mut q = Queue::new(timeout, add_cmd);
                q.insert_player(username.clone());
                let op = AddRemovePlayerOp::PlayerAdded(username);
                let snap = q.clone();
                let qe = QueueEntry { id: queue_id.clone(), queue: q };
                let ghost qe2 = qe;
                self.queues.push(qe);
                proof {
                    assert(qe2.queue.players_view() =~= Seq::<Seq<char>>::empty().push(
                        username@,
                    ));
                    assert(qe2.queue.model() == toggled_queue(before, timeout, add_cmd@, username@));
                    assert forall|q2: Seq<char>| #[trigger] lookup_queue(self.queues@, q2)
                        == (if q2 == queue_id@ {
                        Some(qe2.queue.model())
                    } else {
                        lookup_queue(entries0, q2)
                    }) by {
                        lemma_lookup_push(entries0, qe2, q2);
                        if q2 != queue_id@ {
                        } else {
                            lemma_lookup_absent(entries0, q2);
                        }
                    }
                    assert(distinct_queue_ids(self.queues@)) by {
                        assert forall|a: int, b: int|
                            0 <= a < b < self.queues@.len() implies self.queues@[a].id@
                            != self.queues@[b].id@ by {
                            if b == entries0.len() {
                                assert(self.queues@[a] == entries0[a]);
                                if entries0[a].id@ == queue_id@ {
                                    assert(has_queue_id(entries0, queue_id@));
                                }
                            } else {
                                assert(self.queues@[a] == entries0[a]);
                                assert(self.queues@[b] == entries0[b]);
                            }
                        }
                    }
                    assert(forall|k: int|
                        0 <= k < self.queues@.len() ==> queue_entry_wf(
                            #[trigger] self.queues@[k],
                        )) by {
                        assert(queue_entry_wf(qe2));
                        assert(forall|k: int|
                            0 <= k < entries0.len() ==> self.queues@[k] == entries0[k]);
                    }
                }
                (AddRemovePlayerResult::PlayerQueued(snap), op)
            },
        }
    }
}

impl State {
    /// Adds/removes player from given chat queue.
    ///
    /// Removes and returns the queue once it's full (for the instant
    /// queue) or once it emptied; chats and queues are created on demand,
    /// so the transition is total.
    pub fn add_remove_player(
        &self,
        chat_id: &ChatId,
        queue_id: &QueueId,
        add_cmd: String,
        timeout: QueueTime,
        username: Username,
    ) -> (r: (State, AddRemovePlayerResult, AddRemovePlayerOp))
        requires
            self.wf(),
            timeout.wf(),
        ensures
            r.0.wf(),
            toggle_post(*self, r.0, chat_id.0, queue_id@, timeout, add_cmd@, username@),
            toggle_classified(
                self.spec_queue(chat_id.0, queue_id@),
                timeout,
                add_cmd@,
                username,
                r.1,
                r.2,
            ),
    {
        let mut state = self.clone();
        proof {
            lemma_similar_states_agree(*self, state);
        }
        let ghost cloned = state;
        let ci = match state.find_chat(chat_id) {
            Some(i) => i,
            None => {
                let e = ChatEntry { id: *chat_id, chat: Chat::new() };
                let ghost e2 = e;
                state.chats.push(e);
                proof {
                    assert(state.chats@ =~= cloned.chats@.insert(cloned.chats@.len() as int, e2));
                    assert forall|c: i64| #[trigger] lookup_chat(state.chats@, c)
                        == (if c == chat_id.0 {
                        Some(e2.chat.queues@)
                    } else {
                        lookup_chat(cloned.chats@, c)
                    }) by {
                        lemma_lookup_chat_insert(cloned.chats@, cloned.chats@.len() as int, e2, c);
                    }
                    assert(distinct_chat_ids(state.chats@)) by {
                        assert forall|a: int, b: int|
                            0 <= a < b < state.chats@.len() implies state.chats@[a].id.0
                            != state.chats@[b].id.0 by {
                            if b == cloned.chats@.len() {
                                assert(state.chats@[a] == cloned.chats@[a]);
                                if cloned.chats@[a].id.0 == chat_id.0 {
                                    assert(has_chat_id(cloned.chats@, chat_id.0));
                                }
                            } else {
                                assert(state.chats@[a] == cloned.chats@[a]);
                                assert(state.chats@[b] == cloned.chats@[b]);
                            }
                        }
                    }
                    assert(forall|k: int|
                        0 <= k < state.chats@.len() ==> (#[trigger] state.chats@[k]).chat.wf()) by {
                        assert(e2.chat.wf());
                        assert(forall|k: int|
                            0 <= k < cloned.chats@.len() ==> state.chats@[k] == cloned.chats@[k]);
                    }
                }
                state.chats.len() - 1
            },
        };
        let ghost chats1 = state.chats@;
        proof {
            assert(chats1[ci as int].id.0 == chat_id.0);
            assert(forall|k: int| 0 <= k < ci ==> chats1[k].id.0 != chat_id.0) by {
                assert(distinct_chat_ids(chats1));
            }
            lemma_lookup_chat_at_index(chats1, ci as int);
        }
        let mut centry = state.chats.remove(ci);
        let ghost chats2 = state.chats@;
        let ghost queues_before = centry.chat.queues@;
        proof {
            assert(!has_chat_id(chats2, chat_id.0)) by {
                if has_chat_id(chats2, chat_id.0) {
                    let k = choose|k: int| 0 <= k < chats2.len() && chats2[k].id.0 == chat_id.0;
                    if k < ci {
                        assert(chats1[k].id.0 == chats1[ci as int].id.0);
                    } else {
                        assert(chats1[k + 1].id.0 == chats1[ci as int].id.0);
                    }
                }
            }
            assert(distinct_chat_ids(chats2)) by {
                assert forall|a: int, b: int|
                    0 <= a < b < chats2.len() implies chats2[a].id.0 != chats2[b].id.0 by {
                    let a0 = if a < ci {
                        a
                    } else {
                        a + 1
                    };
                    let b0 = if b < ci {
                        b
                    } else {
                        b + 1
                    };
                    assert(chats2[a] == chats1[a0]);
                    assert(chats2[b] == chats1[b0]);
                }
            }
            assert(forall|k: int|
                0 <= k < chats2.len() ==> (#[trigger] chats2[k]).chat.wf()) by {
                assert(forall|k: int|
                    0 <= k < chats2.len() ==> chats2[k] == (if k < ci {
                        chats1[k]
                    } else {
                        chats1[k + 1]
                    }));
            }
        }
        let (result, op) = centry.chat.toggle(queue_id, add_cmd, timeout, username);
        let ghost centry2 = centry;
        state.chats.insert(ci, centry);
        proof {
            assert forall|c: i64| #[trigger] lookup_chat(state.chats@, c) == (if c == chat_id.0 {
                Some(centry2.chat.queues@)
            } else {
                lookup_chat(chats1, c)
            }) by {
                lemma_lookup_chat_insert(chats2, ci as int, centry2, c);
                lemma_lookup_chat_remove(chats1, ci as int, c);
            }
            assert(distinct_chat_ids(state.chats@)) by {
                assert forall|a: int, b: int|
                    0 <= a < b < state.chats@.len() implies state.chats@[a].id.0
                    != state.chats@[b].id.0 by {
                    if a == ci || b == ci {
                        if a == ci {
                            assert(state.chats@[b] == chats2[b - 1]);
                        }
                        if b == ci {
                            assert(state.chats@[a] == chats2[a]);
                        }
                    } else {
                        let a0 = if a < ci {
                            a
                        } else {
                            a - 1
                        };
                        let b0 = if b < ci {
                            b
                        } else {
                            b - 1
                        };
                        assert(state.chats@[a] == chats2[a0]);
                        assert(state.chats@[b] == chats2[b0]);
                    }
                }
            }
            assert(forall|k: int|
                0 <= k < state.chats@.len() ==> (#[trigger] state.chats@[k]).chat.wf()) by {
                assert(centry2.chat.wf());
                assert(forall|k: int|
                    0 <= k < state.chats@.len() ==> state.chats@[k] == (if k < ci {
                        chats2[k]
                    } else if k == ci {
                        centry2
                    } else {
                        chats2[k - 1]
                    }));
            }
            // The addressed chat held `queues_before` at the moment of the
            // toggle, which is what the clone stored under the chat id.
            assert(lookup_chat(chats1, chat_id.0) == Some::<Seq<QueueEntry>>(queues_before));
            assert(lookup_queue(queues_before, queue_id@) == self.spec_queue(
                chat_id.0,
                queue_id@,
            )) by {
                if has_chat_id(cloned.chats@, chat_id.0) {
                    assert(cloned.spec_queue(chat_id.0, queue_id@) == self.spec_queue(
                        chat_id.0,
                        queue_id@,
                    ));
                } else {
                    lemma_lookup_chat_absent(cloned.chats@, chat_id.0);
                    assert(cloned.spec_queue(chat_id.0, queue_id@) == self.spec_queue(
                        chat_id.0,
                        queue_id@,
                    ));
                }
            }
            assert forall|c: i64, q: Seq<char>|
                c != chat_id.0 || q != queue_id@ implies #[trigger] state.spec_queue(c, q)
                == self.spec_queue(c, q) by {
                assert(cloned.spec_queue(c, q) == self.spec_queue(c, q));
                if c != chat_id.0 {
                    assert(lookup_chat(state.chats@, c) == lookup_chat(chats1, c));
                    if !has_chat_id(cloned.chats@, c) {
                        lemma_lookup_chat_absent(cloned.chats@, c);
                        if chats1 != cloned.chats@ {
                            assert(lookup_chat(chats1, c) == lookup_chat(cloned.chats@, c));
                        }
                    }
                } else {
                    assert(lookup_queue(centry2.chat.queues@, q) == lookup_queue(
                        queues_before,
                        q,
                    ));
                    assert(lookup_queue(queues_before, q) == cloned.spec_queue(c, q)) by {
                        if !has_chat_id(cloned.chats@, chat_id.0) {
                            lemma_lookup_chat_absent(cloned.chats@, chat_id.0);
                        }
                    }
                }
            }
            assert(state.spec_queue(chat_id.0, queue_id@) == toggled_lookup(
                self.spec_queue(chat_id.0, queue_id@),
                queue_id@,
                timeout,
                add_cmd@,
                username@,
            ));
        }
        (state, result, op)
    }
}

/// Replacing the chat at an index by one with the same identifier serves
/// the new queues under that identifier and leaves every other chat alone.
pub proof fn lemma_chats_update(chats1: Seq<ChatEntry>, ci: int, e: ChatEntry)
    requires
        distinct_chat_ids(chats1),
        0 <= ci < chats1.len(),
        e.id == chats1[ci].id,
    ensures
        forall|c: i64| #[trigger] lookup_chat(chats1.remove(ci).insert(ci, e), c) == (if c
            == chats1[ci].id.0 {
            Some(e.chat.queues@)
        } else {
            lookup_chat(chats1, c)
        }),
        distinct_chat_ids(chats1.remove(ci).insert(ci, e)),
        (e.chat.wf() && (forall|k: int|
            0 <= k < chats1.len() ==> (#[trigger] chats1[k]).chat.wf())) ==> (forall|k: int|
            0 <= k < chats1.remove(ci).insert(ci, e).len() ==> (#[trigger] chats1.remove(
                ci,
            ).insert(ci, e)[k]).chat.wf()),
{
    let chats2 = chats1.remove(ci);
    let chats3 = chats2.insert(ci, e);
    assert(!has_chat_id(chats2, e.id.0)) by {
        if has_chat_id(chats2, e.id.0) {
            let k = choose|k: int| 0 <= k < chats2.len() && chats2[k].id.0 == e.id.0;
            if k < ci {
                assert(chats1[k].id.0 == chats1[ci].id.0);
            } else {
                assert(chats1[k + 1].id.0 == chats1[ci].id.0);
            }
        }
    }
    assert(distinct_chat_ids(chats2)) by {
        assert forall|a: int, b: int|
            0 <= a < b < chats2.len() implies chats2[a].id.0 != chats2[b].id.0 by {
            let a0 = if a < ci {
                a
            } else {
                a + 1
            };
            let b0 = if b < ci {
                b
            } else {
                b + 1
            };
            assert(chats2[a] == chats1[a0]);
            assert(chats2[b] == chats1[b0]);
        }
    }
    assert forall|c: i64| #[trigger] lookup_chat(chats3, c) == (if c == chats1[ci].id.0 {
        Some(e.chat.queues@)
    } else {
        lookup_chat(chats1, c)
    }) by {
        lemma_lookup_chat_insert(chats2, ci, e, c);
        lemma_lookup_chat_remove(chats1, ci, c);
    }
    assert(distinct_chat_ids(chats3)) by {
        assert forall|a: int, b: int|
            0 <= a < b < chats3.len() implies chats3[a].id.0 != chats3[b].id.0 by {
            if a == ci || b == ci {
                if a == ci {
                    assert(chats3[b] == chats2[b - 1]);
                }
                if b == ci {
                    assert(chats3[a] == chats2[a]);
                }
            } else {
                let a0 = if a < ci {
                    a
                } else {
                    a - 1
                };
                let b0 = if b < ci {
                    b
                } else {
                    b - 1
                };
                assert(chats3[a] == chats2[a0]);
                assert(chats3[b] == chats2[b0]);
            }
        }
    }
    if e.chat.wf() && (forall|k: int| 0 <= k < chats1.len() ==> (#[trigger] chats1[k]).chat.wf()) {
        assert(forall|k: int|
            0 <= k < chats2.len() ==> chats2[k] == (if k < ci {
                chats1[k]
            } else {
                chats1[k + 1]
            }));
        assert(forall|k: int|
            0 <= k < chats3.len() ==> chats3[k] == (if k < ci {
                chats2[k]
            } else if k == ci {
                e
            } else {
                chats2[k - 1]
            }));
    }
}

/// Relation between the states before and after removing one queue: that
/// queue is gone, every other queue in every chat is untouched.
pub open spec fn remove_queue_post(pre: State, post: State, cid: i64, qid: Seq<char>) -> bool {
    &&& forall|c: i64, q: Seq<char>|
        c != cid || q != qid ==> #[trigger] post.spec_queue(c, q) == pre.spec_queue(c, q)
    &&& post.spec_queue(cid, qid) is None
}

impl Chat {
    /// Remove and return the queue stored under `queue_id`, if any.
    pub fn remove_queue(&mut self, queue_id: &QueueId) -> (removed: Option<Queue>)
        requires
            old(self).wf(),
        ensures
            final(self).wf(),
            forall|q: Seq<char>|
                q != queue_id@ ==> #[trigger] lookup_queue(final(self).queues@, q) == lookup_queue(
                    old(self).queues@,
                    q,
                ),
            lookup_queue(final(self).queues@, queue_id@) is None,
            match lookup_queue(old(self).queues@, queue_id@) {
                Some(m) => removed matches Some(q) && q.model() == m,
                None => removed is None,
            },
    {
        let ghost entries0 = self.queues@;
        match self.find_queue(queue_id) {
            Some(qi) => {
                proof {
                    lemma_lookup_at_index(entries0, qi as int);
                }
                let qe = self.queues.remove(qi);
                proof {
                    assert forall|q: Seq<char>| #[trigger] lookup_queue(self.queues@, q) == (if q
                        == queue_id@ {
                        None
                    } else {
                        lookup_queue(entries0, q)
                    }) by {
                        lemma_lookup_remove(entries0, qi as int, q);
                    }
                    assert(distinct_queue_ids(self.queues@)) by {
                        assert forall|a: int, b: int|
                            0 <= a < b < self.queues@.len() implies self.queues@[a].id@
                            != self.queues@[b].id@ by {
                            let a0 = if a < qi {
                                a
                            } else {
                                a + 1
                            };
                            let b0 = if b < qi {
                                b
                            } else {
                                b + 1
                            };
                            assert(self.queues@[a] == entries0[a0]);
                            assert(self.queues@[b] == entries0[b0]);
                        }
                    }
                    assert(forall|k: int|
                        0 <= k < self.queues@.len() ==> queue_entry_wf(
                            #[trigger] self.queues@[k],
                        )) by {
                        assert(forall|k: int|
                            0 <= k < self.queues@.len() ==> self.queues@[k] == (if k < qi {
                                entries0[k]
                            } else {
                                entries0[k + 1]
                            }));
                    }
                }
                Some(qe.queue)
            },
            None => {
                proof {
                    lemma_lookup_absent(entries0, queue_id@);
                }
                None
            },
        }
    }
}

impl State {
    /// Removes a given chat queue, returning the removed queue's snapshot
    /// if it existed.
    pub fn rm_chat_queue(&self, chat_id: &ChatId, queue_id: &QueueId) -> (r: (State, Option<Queue>))
        requires
            self.wf(),
        ensures
            r.0.wf(),
            remove_queue_post(*self, r.0, chat_id.0, queue_id@),
            match self.spec_queue(chat_id.0, queue_id@) {
                Some(m) => r.1 matches Some(q) && q.model() == m,
                None => r.1 is None,
            },
    {
        let mut state = self.clone();
        proof {
            lemma_similar_states_agree(*self, state);
        }
        let ghost cloned = state;
        match state.find_chat(chat_id) {
            None => {
                proof {
                    lemma_lookup_chat_absent(cloned.chats@, chat_id.0);
                    assert forall|c: i64, q: Seq<char>|
                        c != chat_id.0 || q != queue_id@ implies #[trigger] state.spec_queue(c, q)
                        == self.spec_queue(c, q) by {
                        assert(cloned.spec_queue(c, q) == self.spec_queue(c, q));
                    }
                    assert(state.spec_queue(chat_id.0, queue_id@) is None);
                    assert(self.spec_queue(chat_id.0, queue_id@) is None) by {
                        assert(cloned.spec_queue(chat_id.0, queue_id@) == self.spec_queue(
                            chat_id.0,
                            queue_id@,
                        ));
                    }
                }
                (state, None)
            },
            Some(ci) => {
                let ghost chats1 = state.chats@;
                proof {
                    lemma_lookup_chat_at_index(chats1, ci as int);
                }
                let mut centry = state.chats.remove(ci);
                let ghost queues_before = centry.chat.queues@;
                let removed = centry.chat.remove_queue(queue_id);
                let ghost centry2 = centry;
                state.chats.insert(ci, centry);
                proof {
                    assert(state.chats@ =~= chats1.remove(ci as int).insert(ci as int, centry2));
                    lemma_chats_update(chats1, ci as int, centry2);
                    assert(lookup_queue(queues_before, queue_id@) == self.spec_queue(
                        chat_id.0,
                        queue_id@,
                    )) by {
                        assert(cloned.spec_queue(chat_id.0, queue_id@) == self.spec_queue(
                            chat_id.0,
                            queue_id@,
                        ));
                    }
                    assert forall|c: i64, q: Seq<char>|
                        c != chat_id.0 || q != queue_id@ implies #[trigger] state.spec_queue(c, q)
                        == self.spec_queue(c, q) by {
                        assert(cloned.spec_queue(c, q) == self.spec_queue(c, q));
                        if c == chat_id.0 {
                            assert(lookup_queue(centry2.chat.queues@, q) == lookup_queue(
                                queues_before,
                                q,
                            ));
                        }
                    }
                }
                (state, removed)
            },
        }
    }
}

/// Dropping a name never lengthens the list.
pub proof fn lemma_without_name_len(names: Seq<Seq<char>>, name: Seq<char>)
    ensures
        without_name(names, name).len() <= names.len(),
    decreases names.len(),
{
    reveal(Seq::filter);
    if names.len() > 0 {
        lemma_without_name_len(names.drop_last(), name);
    }
}

/// What is stored under a queue identifier after removing one player from
/// every queue of a chat and dropping the queues that emptied.
pub open spec fn removed_lookup(before: Option<QueueModel>, name: Seq<char>) -> Option<
    QueueModel,
> {
    match before {
        None => None,
        Some(m) => {
            let p = without_name(m.players, name);
            if p.len() == 0 {
                None
            } else {
                Some(QueueModel { players: p, timeout: m.timeout, add_cmd: m.add_cmd })
            }
        },
    }
}

/// The affected-queue snapshot that remove-everywhere reports for a queue
/// that held the player.
pub open spec fn affected_entry_ok(
    pre_entries: Seq<QueueEntry>,
    e: QueueEntry,
    name: Seq<char>,
) -> bool {
    &&& lookup_queue(pre_entries, e.id@) matches Some(m) && m.players.contains(name)
        && e.queue.model() == (QueueModel {
        players: without_name(m.players, name),
        timeout: m.timeout,
        add_cmd: m.add_cmd,
    })
}

impl Chat {
    /// Remove the player from every queue of this chat; queues that empty
    /// are dropped.  Returns the post-removal snapshot of each queue the
    /// player was in.
    pub fn remove_everywhere(&mut self, username: &Username) -> (affected: Vec<QueueEntry>)
        requires
            old(self).wf(),
        ensures
            final(self).wf(),
            forall|q: Seq<char>| #[trigger] lookup_queue(final(self).queues@, q) == removed_lookup(
                lookup_queue(old(self).queues@, q),
                username@,
            ),
            distinct_queue_ids(affected@),
            forall|a: int|
                0 <= a < affected@.len() ==> affected_entry_ok(
                    old(self).queues@,
                    #[trigger] affected@[a],
                    username@,
                ),
            forall|q: Seq<char>|
                (#[trigger] lookup_queue(old(self).queues@, q) matches Some(m)
                    && m.players.contains(username@)) ==> has_queue_id(affected@, q),
    {
        let ghost entries0 = self.queues@;
        let n = self.queues.len();
        let mut new_queues: Vec<QueueEntry> = Vec::new();
        let mut affected: Vec<QueueEntry> = Vec::new();
        let mut i: usize = 0;
        while i < n
            invariant
                old(self).wf(),
                *self == *old(self),
                entries0 == old(self).queues@,
                n == entries0.len(),
                i <= n,
                forall|q: Seq<char>| #[trigger] lookup_queue(new_queues@, q) == removed_lookup(
                    lookup_queue(entries0.take(i as int), q),
                    username@,
                ),
                distinct_queue_ids(new_queues@),
                forall|k: int|
                    0 <= k < new_queues@.len() ==> queue_entry_wf(#[trigger] new_queues@[k]),
                forall|a: int|
                    0 <= a < new_queues@.len() ==> has_queue_id(
                        entries0.take(i as int),
                        (#[trigger] new_queues@[a]).id@,
                    ),
                distinct_queue_ids(affected@),
                forall|a: int|
                    0 <= a < affected@.len() ==> has_queue_id(
                        entries0.take(i as int),
                        (#[trigger] affected@[a]).id@,
                    ),
                forall|a: int|
                    0 <= a < affected@.len() ==> affected_entry_ok(
                        entries0,
                        #[trigger] affected@[a],
                        username@,
                    ),
                forall|j: int|
                    0 <= j < i && (#[trigger] entries0[j]).queue.players_view().contains(username@)
                        ==> has_queue_id(affected@, entries0[j].id@),
            decreases n - i,
        {
            let ghost new_prev = new_queues@;
            let ghost affected_prev = affected@;
            let ghost m = self.queues@[i as int].queue.model();
            proof {
                assert(forall|k: int| 0 <= k < i ==> entries0[k].id@ != entries0[i as int].id@);
                lemma_lookup_at_index(entries0, i as int);
                assert(!has_queue_id(entries0.take(i as int), entries0[i as int].id@)) by {
                    if has_queue_id(entries0.take(i as int), entries0[i as int].id@) {
                        let k = choose|k: int|
                            0 <= k < i && entries0.take(i as int)[k].id@ == entries0[i as int].id@;
                    }
                }
                lemma_lookup_absent(entries0.take(i as int), entries0[i as int].id@);
                assert(queue_entry_wf(entries0[i as int]));
            }
            let e = &self.queues[i];
            let had = e.queue.has_player(username);
            if had {
                let mut q2 = e.queue.clone();
                q2.remove_player(username);
                proof {
                    lemma_without_name_len(m.players, username@);
                }
                let keep = q2.has_players();
                if keep {
                    new_queues.push(QueueEntry { id: e.id.clone(), queue: q2.clone() });
                }
                affected.push(QueueEntry { id: e.id.clone(), queue: q2 });
            } else {
                proof {
                    lemma_filter_absent(m.players, username@);
                    assert((QueueModel {
                        players: m.players,
                        timeout: m.timeout,
                        add_cmd: m.add_cmd,
                    }) == m);
                }
                new_queues.push(QueueEntry { id: e.id.clone(), queue: e.queue.clone() });
            }
            proof {
                let name = username@;
                let eid = entries0[i as int].id@;
                assert(entries0.take(i as int + 1) =~= entries0.take(i as int).push(
                    entries0[i as int],
                ));
                assert forall|q: Seq<char>| #[trigger] lookup_queue(new_queues@, q)
                    == removed_lookup(lookup_queue(entries0.take(i as int + 1), q), name) by {
                    lemma_lookup_push(entries0.take(i as int), entries0[i as int], q);
                    if new_queues@ != new_prev {
                        lemma_lookup_push(new_prev, new_queues@[new_queues@.len() - 1], q);
                    }
                    if q == eid {
                        assert(lookup_queue(entries0.take(i as int + 1), q) == Some(m));
                        assert(lookup_queue(new_prev, q) is None) by {
                            if lookup_queue(new_prev, q) is Some {
                                lemma_lookup_finds(new_prev, q);
                                let a = choose|a: int|
                                    0 <= a < new_prev.len() && new_prev[a].id@ == q;
                                assert(has_queue_id(entries0.take(i as int), q));
                                lemma_lookup_absent(entries0.take(i as int), q);
                            }
                        }
                    }
                }
                assert forall|a: int|
                    0 <= a < new_queues@.len() implies has_queue_id(
                    entries0.take(i as int + 1),
                    (#[trigger] new_queues@[a]).id@,
                ) by {
                    if a < new_prev.len() {
                        let k = choose|k: int|
                            0 <= k < i && entries0.take(i as int)[k].id@ == new_prev[a].id@;
                        assert(entries0.take(i as int + 1)[k].id@ == new_queues@[a].id@);
                    } else {
                        assert(entries0.take(i as int + 1)[i as int].id@ == eid);
                    }
                }
                assert(distinct_queue_ids(new_queues@)) by {
                    assert forall|a: int, b: int|
                        0 <= a < b < new_queues@.len() implies new_queues@[a].id@
                        != new_queues@[b].id@ by {
                        if b == new_prev.len() && new_queues@ != new_prev {
                            if new_prev[a].id@ == eid {
                                let k = choose|k: int|
                                    0 <= k < i && entries0.take(i as int)[k].id@
                                        == new_prev[a].id@;
                            }
                        }
                    }
                }
                assert forall|a: int|
                    0 <= a < affected@.len() implies has_queue_id(
                    entries0.take(i as int + 1),
                    (#[trigger] affected@[a]).id@,
                ) by {
                    if a < affected_prev.len() {
                        let k = choose|k: int|
                            0 <= k < i && entries0.take(i as int)[k].id@ == affected_prev[a].id@;
                        assert(entries0.take(i as int + 1)[k].id@ == affected@[a].id@);
                    } else {
                        assert(entries0.take(i as int + 1)[i as int].id@ == eid);
                    }
                }
                assert(distinct_queue_ids(affected@)) by {
                    assert forall|a: int, b: int|
                        0 <= a < b < affected@.len() implies affected@[a].id@ != affected@[b].id@ by {
                        if b == affected_prev.len() && affected@ != affected_prev {
                            if affected_prev[a].id@ == eid {
                                let k = choose|k: int|
                                    0 <= k < i && entries0.take(i as int)[k].id@
                                        == affected_prev[a].id@;
                            }
                        }
                    }
                }
                assert forall|j: int|
                    0 <= j < i + 1 && (#[trigger] entries0[j]).queue.players_view().contains(name)
                        implies has_queue_id(affected@, entries0[j].id@) by {
                    if j < i {
                        let a = choose|a: int|
                            0 <= a < affected_prev.len() && affected_prev[a].id@
                                == entries0[j].id@;
                        assert(affected@[a].id@ == entries0[j].id@);
                    } else {
                        assert(m.players.contains(name));
                        assert(affected@[affected@.len() - 1].id@ == eid);
                    }
                }
            }
            i = i + 1;
        }
        proof {
            assert(entries0.take(n as int) =~= entries0);
        }
        self.queues = new_queues;
        proof {
            assert forall|q: Seq<char>|
                (#[trigger] lookup_queue(entries0, q) matches Some(m2) && m2.players.contains(
                    username@,
                )) implies has_queue_id(affected@, q) by {
                if lookup_queue(entries0, q) is Some {
                    lemma_lookup_finds(entries0, q);
                    let k = choose|k: int|
                        0 <= k < entries0.len() && entries0[k].id@ == q && lookup_queue(
                            entries0,
                            q,
                        ) == Some(entries0[k].queue.model());
                }
            }
        }
        affected
    }
}

/// Relation between the states before and after removing one player from
/// every queue of one chat.
pub open spec fn rm_post(pre: State, post: State, cid: i64, name: Seq<char>) -> bool {
    &&& forall|c: i64, q: Seq<char>|
        c != cid ==> #[trigger] post.spec_queue(c, q) == pre.spec_queue(c, q)
    &&& forall|q: Seq<char>| #[trigger] post.spec_queue(cid, q) == removed_lookup(
        pre.spec_queue(cid, q),
        name,
    )
}

impl State {
    /// Removes player from all chat queues.
    ///
    /// Returns a tuple of new State and the affected queues, each under its
    /// identifier with its post-removal snapshot (empty if the player was
    /// in no queue).
    pub fn rm_player(&self, chat_id: &ChatId, username: &Username) -> (r: (State, Vec<QueueEntry>))
        requires
            self.wf(),
        ensures
            r.0.wf(),
            rm_post(*self, r.0, chat_id.0, username@),
            distinct_queue_ids(r.1@),
            forall|a: int|
                0 <= a < r.1@.len() ==> {
                    let e = #[trigger] r.1@[a];
                    self.spec_queue(chat_id.0, e.id@) matches Some(m) && m.players.contains(
                        username@,
                    ) && e.queue.model() == (QueueModel {
                        players: without_name(m.players, username@),
                        timeout: m.timeout,
                        add_cmd: m.add_cmd,
                    })
                },
            forall|q: Seq<char>|
                (#[trigger] self.spec_queue(chat_id.0, q) matches Some(m) && m.players.contains(
                    username@,
                )) ==> has_queue_id(r.1@, q),
    {
        let mut state = self.clone();
        proof {
            lemma_similar_states_agree(*self, state);
        }
        let ghost cloned = state;
        match state.find_chat(chat_id) {
            None => {
                proof {
                    lemma_lookup_chat_absent(cloned.chats@, chat_id.0);
                    assert forall|c: i64, q: Seq<char>| true implies #[trigger] state.spec_queue(
                        c,
                        q,
                    ) == self.spec_queue(c, q) by {
                        assert(cloned.spec_queue(c, q) == self.spec_queue(c, q));
                    }
                    assert(forall|q: Seq<char>| #[trigger] self.spec_queue(chat_id.0, q) is None)
                        by {
                        assert(forall|q: Seq<char>| #[trigger] cloned.spec_queue(chat_id.0, q)
                            == self.spec_queue(chat_id.0, q));
                    }
                }
                (state, Vec::new())
            },
            Some(ci) => {
                let ghost chats1 = state.chats@;
                proof {
                    lemma_lookup_chat_at_index(chats1, ci as int);
                }
                let mut centry = state.chats.remove(ci);
                let ghost queues_before = centry.chat.queues@;
                let affected = centry.chat.remove_everywhere(username);
                let ghost centry2 = centry;
                state.chats.insert(ci, centry);
                proof {
                    assert(state.chats@ =~= chats1.remove(ci as int).insert(ci as int, centry2));
                    lemma_chats_update(chats1, ci as int, centry2);
                    assert(forall|q: Seq<char>| #[trigger] lookup_queue(queues_before, q)
                        == cloned.spec_queue(chat_id.0, q));
                    assert forall|c: i64, q: Seq<char>|
                        c != chat_id.0 implies #[trigger] state.spec_queue(c, q) == self.spec_queue(
                        c,
                        q,
                    ) by {
                        assert(cloned.spec_queue(c, q) == self.spec_queue(c, q));
                    }
                    assert forall|q: Seq<char>| #[trigger] state.spec_queue(chat_id.0, q)
                        == removed_lookup(self.spec_queue(chat_id.0, q), username@) by {
                        assert(lookup_queue(centry2.chat.queues@, q) == removed_lookup(
                            lookup_queue(queues_before, q),
                            username@,
                        ));
                        assert(cloned.spec_queue(chat_id.0, q) == self.spec_queue(chat_id.0, q));
                    }
                    assert forall|a: int|
                        0 <= a < affected@.len() implies {
                        let e = #[trigger] affected@[a];
                        self.spec_queue(chat_id.0, e.id@) matches Some(m) && m.players.contains(
                            username@,
                        ) && e.queue.model() == (QueueModel {
                            players: without_name(m.players, username@),
                            timeout: m.timeout,
                            add_cmd: m.add_cmd,
                        })
                    } by {
                        assert(affected_entry_ok(queues_before, affected@[a], username@));
                        assert(cloned.spec_queue(chat_id.0, affected@[a].id@) == self.spec_queue(
                            chat_id.0,
                            affected@[a].id@,
                        ));
                    }
                    assert forall|q: Seq<char>|
                        (#[trigger] self.spec_queue(chat_id.0, q) matches Some(m)
                            && m.players.contains(username@)) implies has_queue_id(affected@, q) by {
                        assert(cloned.spec_queue(chat_id.0, q) == self.spec_queue(chat_id.0, q));
                    }
                }
                (state, affected)
            },
        }
    }
}

/// Pushing a fresh name and then dropping it restores the list.
pub proof fn lemma_without_push(names: Seq<Seq<char>>, name: Seq<char>)
    requires
        !names.contains(name),
    ensures
        without_name(names.push(name), name) == names,
{
    reveal(Seq::filter);
    assert(names.push(name).drop_last() =~= names);
    lemma_filter_absent(names, name);
}

/// Dropping a name leaves a list free of it.
pub proof fn lemma_without_name_gone(names: Seq<Seq<char>>, name: Seq<char>)
    ensures
        !without_name(names, name).contains(name),
    decreases names.len(),
{
    reveal(Seq::filter);
    if names.len() > 0 {
        lemma_without_name_gone(names.drop_last(), name);
        let out = without_name(names, name);
        if out.contains(name) {
            let k = choose|k: int| 0 <= k < out.len() && out[k] == name;
            if names.last() != name {
            } else {
                assert(out == without_name(names.drop_last(), name));
            }
        }
    }
}

/// A successful chat lookup names some entry.
pub proof fn lemma_lookup_chat_finds(entries: Seq<ChatEntry>, cid: i64)
    requires
        lookup_chat(entries, cid) is Some,
    ensures
        has_chat_id(entries, cid),
        exists|k: int|
            0 <= k < entries.len() && entries[k].id.0 == cid && lookup_chat(entries, cid)
                == Some(entries[k].chat.queues@),
    decreases entries.len(),
{
    if entries.len() > 0 {
        if entries[0].id.0 == cid {
            assert(entries[0].id.0 == cid && lookup_chat(entries, cid) == Some(
                entries[0].chat.queues@,
            ));
        } else {
            lemma_lookup_chat_finds(entries.drop_first(), cid);
            let k = choose|k: int|
                0 <= k < entries.drop_first().len() && entries.drop_first()[k].id.0 == cid
                    && lookup_chat(entries.drop_first(), cid) == Some(
                    entries.drop_first()[k].chat.queues@,
                );
            assert(entries[k + 1].id.0 == cid && lookup_chat(entries, cid) == Some(
                entries[k + 1].chat.queues@,
            ));
        }
    }
}

/// Every queue a well-formed state stores is itself well formed: players
/// are distinct, the queue is never empty, the expiry is a valid time, and
/// the instant queue is below capacity.
pub proof fn lemma_wf_spec_queue(s: State, cid: i64, qid: Seq<char>)
    requires
        s.wf(),
    ensures
        s.spec_queue(cid, qid) matches Some(m) ==> {
            &&& m.players.len() > 0
            &&& distinct_names(m.players)
            &&& m.timeout.wf()
            &&& (qid.len() == 0 ==> m.players.len() < QUEUE_SIZE)
        },
{
    if s.spec_queue(cid, qid) is Some {
        lemma_lookup_chat_finds(s.chats@, cid);
        let k = choose|k: int|
            0 <= k < s.chats@.len() && s.chats@[k].id.0 == cid && lookup_chat(s.chats@, cid)
                == Some(s.chats@[k].chat.queues@);
        let qs = s.chats@[k].chat.queues@;
        assert(s.chats@[k].chat.wf());
        lemma_lookup_finds(qs, qid);
        let j = choose|j: int|
            0 <= j < qs.len() && qs[j].id@ == qid && lookup_queue(qs, qid) == Some(
                qs[j].queue.model(),
            );
        assert(queue_entry_wf(qs[j]));
    }
}

} // verus!
