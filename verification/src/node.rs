use vstd::prelude::*;
use vstd::std_specs::iter::IteratorSpec;
use std::collections::HashMap;

use crate::raft::log::{Log, LogItem, SetCommand, StateMachine};

verus! {

/// A candidate's request for a vote.
pub struct RequestVoteRPC {
    /// candidate's term
    pub term: u64,
    /// candidate requesting vote
    pub candidate_id: u64,
    /// index of candidate's last log entry
    pub last_log_index: u64,
    /// term of candidate's last log entry
    pub last_log_term: u64,
}

/// The answer to a `RequestVoteRPC`.
pub struct RequestVoteResult {
    /// currentTerm, for candidate to update itself
    pub term: u64,
    /// true means candidate received vote
    pub vote_granted: bool,
}

/// A leader's request to replicate entries (empty for a heartbeat).
pub struct AppendEntriesRPC {
    /// leader's term
    pub term: u64,
    /// so follower can redirect clients
    pub leader_id: u64,
    /// index of log entry immediately preceding new ones
    pub prev_log_index: i64,
    /// term of prevLogIndex entry
    pub prev_log_term: u64,
    /// log entries to store (empty for heartbeat; may send more than one for efficiency)
    pub log: Vec<LogItem>,
    /// leader's commitIndex
    pub leader_commit: u64,
}

impl Clone for AppendEntriesRPC {
    fn clone(&self) -> (copy: Self)
        ensures
            copy.term == self.term,
            copy.leader_id == self.leader_id,
            copy.prev_log_index == self.prev_log_index,
            copy.prev_log_term == self.prev_log_term,
            copy.log@ == self.log@,
            copy.leader_commit == self.leader_commit,
    {
        let log = self.log.clone();
        proof {
            assert forall|i: int| 0 <= i < log.len() implies log@[i] == self.log@[i] by {
                assert(cloned::<LogItem>(self.log[i], log[i]));
            }
            assert(log@ =~= self.log@);
        }
        AppendEntriesRPC {
            term: self.term,
            leader_id: self.leader_id,
            prev_log_index: self.prev_log_index,
            prev_log_term: self.prev_log_term,
            log,
            leader_commit: self.leader_commit,
        }
    }
}

/// The answer to an `AppendEntriesRPC`.
pub struct AppendEntriesResult {
    /// currentTerm, for candidate to update itself
    pub term: u64,
    /// true if follower contained entry matching prevLogIndex and prevLogTerm
    pub success: bool,
}

/// The role a server plays.
pub enum ServerStatus {
    Follower,
    Candidate,
    Leader,
}

/// The persistent and volatile bookkeeping of a server.
pub struct ServerState {
    /// latest term server has seen (initialized to 0 on first boot, increases monotonically)
    pub current_term: u64,
    /// candidateId that received vote in current term
    pub voted_for: u64,
    /// index of highest log entry known to be committed (initialized to 0, increases monotonically)
    pub commit_index: u64,
    /// index of highest log entry applied to state machine (initialized to 0, increases monotonically)
    pub last_applied: u64,
}

/// Leader-only state, reinitialized after election.
pub struct LeaderState {
    /// for each server, index of the next log entry to send to that server
    pub next_indices: HashMap<u64, u64>,
    /// for each server, index of highest log entry known to be replicated on server
    pub match_indices: HashMap<u64, u64>,
}

/// A member of the cluster.
pub struct Server {
    pub id: u64,
    pub state_machine: StateMachine,
    /// log entries; each entry contains command for state machine, and term when entry was
    /// received by leader
    pub log: Log,
    pub status: ServerStatus,
    pub available: bool,
    pub server_state: ServerState,
    /// leader-only state
    pub leader_state: Option<LeaderState>,
}

/// The servers of a cluster.
pub struct ServerPool<'s> {
    /// master list
    pub servers: Vec<Server>,
    /// the current leader, if known
    pub leader: Option<&'s Server>,
}

/// Whether `checked_apply` applied an entry.
pub enum ApplyResult {
    Applied,
    Unchanged,
}

/// The term a server holds after it has seen a message of term `term`.
pub open spec fn adopted_term(current: u64, term: u64) -> u64 {
    if term > current {
        term
    } else {
        current
    }
}

/// The commit index a follower with commit index `commit` takes from a leader with commit
/// index `leader_commit`, after new entries ending at `last_index`: where leaderCommit >
/// commitIndex, min(leaderCommit, index of last new entry), unless that lies below the
/// commit index the follower already holds, which never goes back.
pub open spec fn follower_commit(commit: u64, leader_commit: u64, last_index: u64) -> u64 {
    if leader_commit > commit {
        let bound = if leader_commit < last_index {
            leader_commit
        } else {
            last_index
        };
        if bound > commit {
            bound
        } else {
            commit
        }
    } else {
        commit
    }
}

/// The log after one received entry is taken in: an entry that agrees in term with the
/// entry at its index is skipped; one that conflicts replaces that entry and drops all
/// that follow it; one past the end is appended.
pub open spec fn merge_entry(items: Seq<LogItem>, entry: LogItem) -> Seq<LogItem> {
    if entry.index < items.len() {
        if items[entry.index as int].term == entry.term {
            items
        } else {
            items.take(entry.index as int).push(entry)
        }
    } else {
        items.push(entry)
    }
}

/// The log after the received entries are taken in, in order.
pub open spec fn merge_entries(items: Seq<LogItem>, entries: Seq<LogItem>) -> Seq<LogItem>
    decreases entries.len(),
{
    if entries.len() == 0 {
        items
    } else {
        merge_entry(merge_entries(items, entries.drop_last()), entries.last())
    }
}

/// The servers whose match index has reached `n`.
pub open spec fn replicated_on(match_indices: Map<u64, u64>, n: int) -> Set<u64> {
    match_indices.dom().filter(|id: u64| match_indices[id] >= n)
}

/// A majority of the match indices have reached `n`: more than half of them.
pub open spec fn replicated_on_majority(leader_state: LeaderState, n: int) -> bool {
    2 * replicated_on(leader_state.match_indices@, n).len() > leader_state.match_indices@.len()
}

/// A leader in term `term` may take `n` as its commit index: entry `n` exists, was received
/// in the current term and is stored on a majority.
pub open spec fn can_commit(leader_state: LeaderState, items: Seq<LogItem>, term: u64, n: int) -> bool {
    &&& 0 <= n < items.len()
    &&& replicated_on_majority(leader_state, n)
    &&& items[n].term == term
}

/// The commit index that a leader with commit index `commit` moves to: the greatest `n` at
/// or above `commit` that it may commit, or `commit` where there is none.
pub open spec fn advanced_commit(
    leader_state: LeaderState,
    items: Seq<LogItem>,
    term: u64,
    commit: u64,
    new_commit: u64,
) -> bool {
    if exists|n: int| commit <= n && #[trigger] can_commit(leader_state, items, term, n) {
        &&& commit <= new_commit
        &&& can_commit(leader_state, items, term, new_commit as int)
        &&& forall|m: int| new_commit < m ==> !#[trigger] can_commit(leader_state, items, term, m)
    } else {
        new_commit == commit
    }
}

/// The number of servers whose match index has reached `n`.
pub fn count_replicated(match_indices: &HashMap<u64, u64>, n: u64) -> (count: u64)
    ensures
        count == replicated_on(match_indices@, n as int).len(),
        count <= match_indices@.len(),
{
    let total = match_indices.len();
    let ghost pred = |id: u64| match_indices@[id] >= n;
    let ghost all_keys = vstd::std_specs::hash::into_iter_keys(match_indices.keys());
    let mut count: u64 = 0;
    proof {
        assert(all_keys.take(0).to_set().filter(pred) =~= Set::<u64>::empty());
    }
    for k in it: match_indices.keys()
        invariant
            total == match_indices@.len(),
            it.seq().unref() == all_keys,
            pred == (|id: u64| match_indices@[id] >= n),
            all_keys.to_set() == match_indices@.dom(),
            all_keys.no_duplicates(),
            count == all_keys.take(it.index()).to_set().filter(pred).len(),
            count <= it.index(),
    {
        let ghost keys = all_keys;
        let ghost i = it.index();
        proof {
            assert(keys[i] == *k);
            assert(keys.to_set().contains(keys[i]));
        }
        let v = match_indices.get(k).unwrap();
        if *v >= n {
            count = count + 1;
        }
        proof {
            let before = keys.take(i).to_set();
            assert(keys.take(i + 1) =~= keys.take(i).push(keys[i]));
            keys.take(i).lemma_push_to_set_commute(keys[i]);
            assert(!before.contains(keys[i])) by {
                if before.contains(keys[i]) {
                    let j = choose|j: int| 0 <= j < i && keys.take(i)[j] == keys[i];
                    assert(keys[j] == keys[i]);
                }
            }
            if pred(keys[i]) {
                assert(before.insert(keys[i]).filter(pred) =~= before.filter(pred).insert(keys[i]));
            } else {
                assert(before.insert(keys[i]).filter(pred) =~= before.filter(pred));
            }
        }
    }
    proof {
        let keys = all_keys;
        assert(keys.take(keys.len() as int) =~= keys);
        keys.unique_seq_to_set();
        assert(match_indices@.dom().filter(pred) =~= replicated_on(match_indices@, n as int));
    }
    count
}

/// Every entry's index field is its position in the log.
pub open spec fn positions_match(items: Seq<LogItem>) -> bool {
    forall|i: int| 0 <= i < items.len() ==> #[trigger] items[i].index == i
}

/// The entries carry consecutive indices, starting at `first`.
pub open spec fn consecutive_from(entries: Seq<LogItem>, first: int) -> bool {
    forall|j: int| 0 <= j < entries.len() ==> #[trigger] entries[j].index == first + j
}

/// Entries sent in order from index `first`, where `first` is at most one past the end of
/// the follower's log, end up where they belong: the log keeps every entry before `first`,
/// holds an entry of each new entry's term at that entry's index, and a log whose index
/// fields are its positions keeps that shape.
pub proof fn merge_places_entries(items: Seq<LogItem>, entries: Seq<LogItem>, first: int)
    requires
        consecutive_from(entries, first),
        0 <= first <= items.len(),
    ensures
        merge_entries(items, entries).len() >= first + entries.len(),
        merge_entries(items, entries).take(first) == items.take(first),
        forall|j: int|
            0 <= j < entries.len() ==> #[trigger] merge_entries(items, entries)[first + j].term
                == entries[j].term,
        positions_match(items) ==> positions_match(merge_entries(items, entries)),
    decreases entries.len(),
{
    if entries.len() > 0 {
        let prev = entries.drop_last();
        let k = prev.len() as int;
        assert(consecutive_from(prev, first)) by {
            assert forall|j: int| 0 <= j < prev.len() implies #[trigger] prev[j].index == first
                + j by {
                assert(prev[j] == entries[j]);
            }
        }
        merge_places_entries(items, prev, first);
        let before = merge_entries(items, prev);
        let entry = entries.last();
        let after = merge_entries(items, entries);
        assert(entry == entries[k]);
        assert(entry.index == first + k);
        assert(after == merge_entry(before, entry));
        assert(after.take(first) =~= items.take(first)) by {
            assert(before.take(first) == items.take(first));
            assert forall|i: int| 0 <= i < first implies after[i] == before[i] by {}
        }
        assert forall|j: int| 0 <= j < entries.len() implies #[trigger] after[first + j].term
            == entries[j].term by {
            if j < k {
                assert(before[first + j].term == prev[j].term);
                assert(prev[j] == entries[j]);
            }
        }
        if positions_match(items) {
            assert(positions_match(before));
            assert forall|i: int| 0 <= i < after.len() implies #[trigger] after[i].index == i by {
                if i < before.len() && i != entry.index {
                    if entry.index < before.len() && before[entry.index as int].term
                        != entry.term {
                        assert(after[i] == before[i]);
                    }
                }
            }
        }
    }
}

/// The log already holds, at each new entry's index, an entry of that entry's term.
pub open spec fn holds_terms_of(items: Seq<LogItem>, entries: Seq<LogItem>) -> bool {
    forall|j: int|
        0 <= j < entries.len() ==> {
            &&& #[trigger] entries[j].index < items.len()
            &&& items[entries[j].index as int].term == entries[j].term
        }
}

/// Entries whose terms the log already holds at their indices leave the log as it is.
pub proof fn merge_of_held_entries(items: Seq<LogItem>, entries: Seq<LogItem>)
    requires
        holds_terms_of(items, entries),
    ensures
        merge_entries(items, entries) == items,
    decreases entries.len(),
{
    if entries.len() > 0 {
        let prev = entries.drop_last();
        assert(holds_terms_of(items, prev)) by {
            assert forall|j: int| 0 <= j < prev.len() implies {
                &&& #[trigger] prev[j].index < items.len()
                &&& items[prev[j].index as int].term == prev[j].term
            } by {
                assert(prev[j] == entries[j]);
            }
        }
        merge_of_held_entries(items, prev);
        assert(entries.last() == entries[entries.len() - 1]);
    }
}

/// Delivering the same entries a second time changes nothing: the follower's log after a
/// repeated AppendEntries is the log after the first.
pub proof fn redelivery_changes_nothing(items: Seq<LogItem>, entries: Seq<LogItem>, first: int)
    requires
        consecutive_from(entries, first),
        0 <= first <= items.len(),
    ensures
        merge_entries(merge_entries(items, entries), entries) == merge_entries(items, entries),
{
    merge_places_entries(items, entries, first);
    let once = merge_entries(items, entries);
    assert(holds_terms_of(once, entries)) by {
        assert forall|j: int| 0 <= j < entries.len() implies {
            &&& #[trigger] entries[j].index < once.len()
            &&& once[entries[j].index as int].term == entries[j].term
        } by {
            assert(once[first + j].term == entries[j].term);
        }
    }
    merge_of_held_entries(once, entries);
}

/// A term that a server adopts is never older than the one it held nor than the one it saw.
pub proof fn adopted_term_never_goes_back(current: u64, term: u64)
    ensures
        adopted_term(current, term) >= current,
        adopted_term(current, term) >= term,
{
}

/// A leader's commit index only grows.
pub proof fn advanced_commit_never_goes_back(
    leader_state: LeaderState,
    items: Seq<LogItem>,
    term: u64,
    commit: u64,
    new_commit: u64,
)
    requires
        advanced_commit(leader_state, items, term, commit, new_commit),
    ensures
        new_commit >= commit,
{
}

/// A follower's commit index only grows.
pub proof fn follower_commit_never_goes_back(commit: u64, leader_commit: u64, last_index: u64)
    ensures
        follower_commit(commit, leader_commit, last_index) >= commit,
{
}

/// A follower commits nothing the leader has not committed, nor anything past its new
/// entries: where leaderCommit is not above its commit index the commit index stays, and a
/// commit index that moves lands at or below both leaderCommit and the last new index.
pub proof fn follower_commit_follows_leader(commit: u64, leader_commit: u64, last_index: u64)
    ensures
        leader_commit <= commit ==> follower_commit(commit, leader_commit, last_index) == commit,
        follower_commit(commit, leader_commit, last_index) == commit || (follower_commit(
            commit,
            leader_commit,
            last_index,
        ) <= leader_commit && follower_commit(commit, leader_commit, last_index) <= last_index),
        follower_commit(commit, leader_commit, last_index) <= if commit > leader_commit {
            commit
        } else {
            leader_commit
        },
{
}

/// Entries sent in order from index `first`, at most one past the end of the follower's log,
/// are installed as they were sent: at each new entry's index the log holds that very entry
/// (command, term and index), unless the follower already held there an entry of the same
/// term, which it keeps. Entries of the old log past the new ones are kept only where no
/// entry conflicted.
pub proof fn merge_installs_entries(items: Seq<LogItem>, entries: Seq<LogItem>, first: int)
    requires
        consecutive_from(entries, first),
        0 <= first <= items.len(),
    ensures
        forall|j: int|
            0 <= j < entries.len() ==> {
                ||| #[trigger] merge_entries(items, entries)[first + j] == entries[j]
                ||| {
                    &&& first + j < items.len()
                    &&& merge_entries(items, entries)[first + j] == items[first + j]
                    &&& items[first + j].term == entries[j].term
                }
            },
        merge_entries(items, entries).len() == items.len() || merge_entries(items, entries).len()
            == first + entries.len(),
        forall|i: int|
            first + entries.len() <= i < merge_entries(items, entries).len() ==> #[trigger] merge_entries(
                items,
                entries,
            )[i] == items[i],
    decreases entries.len(),
{
    merge_places_entries(items, entries, first);
    if entries.len() > 0 {
        let prev = entries.drop_last();
        let k = prev.len() as int;
        assert(consecutive_from(prev, first)) by {
            assert forall|j: int| 0 <= j < prev.len() implies #[trigger] prev[j].index == first
                + j by {
                assert(prev[j] == entries[j]);
            }
        }
        merge_installs_entries(items, prev, first);
        merge_places_entries(items, prev, first);
        let before = merge_entries(items, prev);
        let entry = entries.last();
        let after = merge_entries(items, entries);
        assert(entry == entries[k]);
        assert(after == merge_entry(before, entry));
        assert forall|j: int| 0 <= j < entries.len() implies {
            ||| #[trigger] after[first + j] == entries[j]
            ||| {
                &&& first + j < items.len()
                &&& after[first + j] == items[first + j]
                &&& items[first + j].term == entries[j].term
            }
        } by {
            if j < k {
                assert(prev[j] == entries[j]);
                assert(before[first + j] == prev[j] || (first + j < items.len() && before[first
                    + j] == items[first + j] && items[first + j].term == prev[j].term));
            } else {
                if first + k < before.len() && before[first + k].term == entry.term {
                    assert(before[first + k] == items[first + k]);
                }
            }
        }
        assert forall|i: int|
            first + entries.len() <= i < merge_entries(items, entries).len() implies #[trigger] merge_entries(
                items,
                entries,
            )[i] == items[i] by {
            if entry.index < before.len() && before[entry.index as int].term == entry.term {
                assert(after == before);
                assert(before[i] == items[i]);
            } else {
                assert(before.len() >= first + k);
                assert(after.len() == first + k + 1);
            }
        }
    } else {
        assert(merge_entries(items, entries) == items);
    }
}

/// A command appended to a log whose index fields are its positions keeps that shape, so
/// that an entry is identified by its index.
pub proof fn append_keeps_positions(items: Seq<LogItem>, command: SetCommand, term: u64)
    requires
        positions_match(items),
        items.len() <= u64::MAX,
    ensures
        positions_match(items.push(LogItem { command: command, term: term, index: items.len() as u64 })),
{
    let pushed = items.push(LogItem { command: command, term: term, index: items.len() as u64 });
    assert forall|i: int| 0 <= i < pushed.len() implies #[trigger] pushed[i].index == i by {
        if i < items.len() {
            assert(pushed[i] == items[i]);
        }
    }
}

/// Some new entry conflicts with an entry the log already holds: same index, different term.
pub open spec fn conflicts_with(items: Seq<LogItem>, entries: Seq<LogItem>, first: int) -> bool {
    exists|j: int|
        0 <= j < entries.len() && first + j < items.len() && #[trigger] entries[j].term
            != items[first + j].term
}

/// Entries are deleted only on a conflict: where no new entry conflicts, every entry the log
/// held stays where it was and the log ends at the later of its old end and the last new
/// entry; where one conflicts, the log ends with the last new entry.
pub proof fn merge_deletes_only_on_conflict(items: Seq<LogItem>, entries: Seq<LogItem>, first: int)
    requires
        consecutive_from(entries, first),
        0 <= first <= items.len(),
    ensures
        !conflicts_with(items, entries, first) ==> {
            &&& merge_entries(items, entries).len() == if items.len() > first + entries.len() {
                items.len() as int
            } else {
                first + entries.len()
            }
            &&& forall|i: int|
                0 <= i < items.len() ==> #[trigger] merge_entries(items, entries)[i] == items[i]
        },
        conflicts_with(items, entries, first) ==> merge_entries(items, entries).len() == first
            + entries.len(),
    decreases entries.len(),
{
    if entries.len() > 0 {
        let prev = entries.drop_last();
        let k = prev.len() as int;
        assert(consecutive_from(prev, first)) by {
            assert forall|j: int| 0 <= j < prev.len() implies #[trigger] prev[j].index == first
                + j by {
                assert(prev[j] == entries[j]);
            }
        }
        merge_deletes_only_on_conflict(items, prev, first);
        merge_places_entries(items, prev, first);
        let before = merge_entries(items, prev);
        let entry = entries.last();
        let after = merge_entries(items, entries);
        assert(entry == entries[k]);
        assert(entry.index == first + k);
        assert(after == merge_entry(before, entry));
        if conflicts_with(items, prev, first) {
            let j = choose|j: int|
                0 <= j < prev.len() && first + j < items.len() && #[trigger] prev[j].term
                    != items[first + j].term;
            assert(prev[j] == entries[j]);
            assert(conflicts_with(items, entries, first));
        } else {
            assert forall|j: int| 0 <= j < k && first + j < items.len() implies #[trigger] entries[j].term
                == items[first + j].term by {
                assert(prev[j] == entries[j]);
            }
            if first + k < items.len() {
                assert(before[first + k] == items[first + k]);
                if entry.term != items[first + k].term {
                    assert(conflicts_with(items, entries, first));
                } else {
                    assert(!conflicts_with(items, entries, first));
                    assert(after == before);
                }
            } else {
                assert(!conflicts_with(items, entries, first));
                assert(after == before.push(entry));
                assert forall|i: int| 0 <= i < items.len() implies #[trigger] after[i] == items[i] by {
                    assert(after[i] == before[i]);
                }
            }
        }
    } else {
        assert(merge_entries(items, entries) == items);
        assert(!conflicts_with(items, entries, first));
    }
}

/// Replication from leader to follower: when the follower's log agrees with the leader's at
/// index `k`, and the leader's index fields are its positions, taking in the leader's entries
/// after `k` keeps the follower's log up to `k` and leaves, at every index after `k` up to the
/// end of the leader's log, an entry of the leader's term there.
pub proof fn replication_copies_leader_suffix(follower: Seq<LogItem>, leader: Seq<LogItem>, k: int)
    requires
        positions_match(leader),
        -1 <= k < leader.len(),
        agrees_at(follower, leader, k),
    ensures
        merge_entries(follower, leader.subrange(k + 1, leader.len() as int)).len() >= leader.len(),
        merge_entries(follower, leader.subrange(k + 1, leader.len() as int)).take(k + 1)
            == follower.take(k + 1),
        forall|i: int|
            k < i < leader.len() ==> #[trigger] merge_entries(
                follower,
                leader.subrange(k + 1, leader.len() as int),
            )[i].term == leader[i].term,
{
    let sent = leader.subrange(k + 1, leader.len() as int);
    assert(consecutive_from(sent, k + 1)) by {
        assert forall|j: int| 0 <= j < sent.len() implies #[trigger] sent[j].index == k + 1 + j by {
            assert(sent[j] == leader[k + 1 + j]);
        }
    }
    merge_places_entries(follower, sent, k + 1);
    let merged = merge_entries(follower, sent);
    assert forall|i: int| k < i < leader.len() implies #[trigger] merged[i].term == leader[i].term by {
        assert(merged[k + 1 + (i - k - 1)].term == sent[i - k - 1].term);
    }
}

/// The follower's log agrees with the leader's at index `k`: `k` lies before the start of the
/// log, or both logs hold an entry of the same term there.
pub open spec fn agrees_at(follower: Seq<LogItem>, leader: Seq<LogItem>, k: int) -> bool {
    k < 0 || (k < follower.len() && follower[k].term == leader[k].term)
}

/// An accepting follower takes the leader's entries that follow index `k`: there are none
/// (a heartbeat), or its log agrees with the leader's at `k`.
pub open spec fn succeeds_after(follower: Seq<LogItem>, leader: Seq<LogItem>, k: int) -> bool {
    k + 1 >= leader.len() || agrees_at(follower, leader, k)
}

/// Walking back from index `k` of the leader's log, the first index after which an
/// accepting follower takes the entries (-1: the entries start the log).
pub open spec fn accept_point(follower: Seq<LogItem>, leader: Seq<LogItem>, k: int) -> int
    decreases k + 1,
{
    if k < 0 {
        -1
    } else if succeeds_after(follower, leader, k) {
        k
    } else {
        accept_point(follower, leader, k - 1)
    }
}

/// The index `p` at which the walk back from `top` first succeeds is the accept point.
pub proof fn accept_point_found(follower: Seq<LogItem>, leader: Seq<LogItem>, top: int, p: int)
    requires
        -1 <= p <= top,
        p < 0 || succeeds_after(follower, leader, p),
        forall|j: int| p < j <= top ==> !#[trigger] succeeds_after(follower, leader, j),
    ensures
        accept_point(follower, leader, top) == p,
    decreases top + 1,
{
    if top > p {
        accept_point_found(follower, leader, top - 1, p);
    }
}

impl Server {
    /// The server answers a message of term `term` as a follower of its sender: the term
    /// is newer than its own, or equal to it while the server already follows.
    pub open spec fn accepts_term(&self, term: u64) -> bool {
        ||| term > self.server_state.current_term
        ||| (term == self.server_state.current_term && self.status == ServerStatus::Follower)
    }

    /// The log holds the entry that precedes the new ones, with the expected term (or the
    /// new entries start the log).
    pub open spec fn prev_entry_matches(&self, args: AppendEntriesRPC) -> bool {
        args.prev_log_index >= 0 ==> {
            &&& args.prev_log_index < self.log.items.len()
            &&& self.log.items@[args.prev_log_index as int].term == args.prev_log_term
        }
    }

    /// If commitIndex > lastApplied: increment lastApplied and apply log[lastApplied] to
    /// the state machine.
    pub fn checked_apply(&mut self) -> (result: ApplyResult)
        requires
            old(self).server_state.commit_index > old(self).server_state.last_applied
                ==> old(self).server_state.last_applied + 1 < old(self).log.items.len(),
        ensures
            ({
                let before = old(self).server_state;
                let applied = before.commit_index > before.last_applied;
                let entry = old(self).log.items@[before.last_applied + 1];
                &&& result == (if applied {
                    ApplyResult::Applied
                } else {
                    ApplyResult::Unchanged
                })
                &&& final(self).server_state.last_applied == (if applied {
                    (before.last_applied + 1) as u64
                } else {
                    before.last_applied
                })
                &&& !applied ==> final(self).state_machine == old(self).state_machine
                &&& final(self).state_machine@ == (if applied {
                    old(self).state_machine@.insert(
                        entry.command.key_view(),
                        entry.command.value_view(),
                    )
                } else {
                    old(self).state_machine@
                })
            }),
            // lastApplied only grows, and never passes commitIndex
            final(self).server_state.last_applied >= old(self).server_state.last_applied,
            old(self).server_state.last_applied <= old(self).server_state.commit_index
                ==> final(self).server_state.last_applied <= final(self).server_state.commit_index,
            final(self).server_state.current_term == old(self).server_state.current_term,
            final(self).server_state.voted_for == old(self).server_state.voted_for,
            final(self).server_state.commit_index == old(self).server_state.commit_index,
            final(self).log.items@ == old(self).log.items@,
            final(self).id == old(self).id,
            final(self).status == old(self).status,
            final(self).available == old(self).available,
            final(self).leader_state == old(self).leader_state,
    {
        if self.server_state.commit_index > self.server_state.last_applied {
            self.server_state.last_applied = self.server_state.last_applied + 1;
            let log = &self.log.items[self.server_state.last_applied as usize];
            log.command.execute(&mut self.state_machine);
            ApplyResult::Applied
        } else {
            ApplyResult::Unchanged
        }
    }

    /// Appends a client command to the log, stamped with the current term and its index.
    pub fn append_command(&mut self, command: SetCommand)
        ensures
            final(self).log.items@ == old(self).log.items@.push(
                LogItem {
                    command: command,
                    term: old(self).server_state.current_term,
                    index: old(self).log.items.len() as u64,
                },
            ),
            final(self).server_state == old(self).server_state,
            final(self).id == old(self).id,
            final(self).status == old(self).status,
            final(self).available == old(self).available,
            final(self).state_machine == old(self).state_machine,
            final(self).leader_state == old(self).leader_state,
    {
        self.log.items.push(
            LogItem {
                command,
                term: self.server_state.current_term,
                index: self.log.items.len() as u64,
            },
        )
    }

    /// The entries of the log from index `start` on.
    pub fn entries_from(&self, start: usize) -> (entries: Vec<LogItem>)
        requires
            start <= self.log.items.len(),
        ensures
            entries@ == self.log.items@.subrange(start as int, self.log.items.len() as int),
    {
        let mut entries: Vec<LogItem> = Vec::new();
        let mut j = start;
        while j < self.log.items.len()
            invariant
                start <= j <= self.log.items.len(),
                entries@ == self.log.items@.subrange(start as int, j as int),
            decreases self.log.items.len() - j,
        {
            entries.push(self.log.items[j].clone());
            j = j + 1;
            proof {
                assert(entries@ =~= self.log.items@.subrange(start as int, j as int));
            }
        }
        entries
    }

    /// Leader side of AppendEntries: sends `dest` the entries from its next index on, each
    /// refusal of an accepting follower moving the start one entry back, until the follower
    /// takes them, refuses for a newer term, or refuses entries that start the log; then
    /// takes in the reply and moves the commit index to the greatest index stored on a
    /// majority in the current term.
    pub fn send_append_entries_rpc(&mut self, dest: &mut Server) -> (result: Option<
        AppendEntriesResult,
    >)
        requires
            old(self).status == ServerStatus::Leader ==> {
                &&& old(self).leader_state is Some
                &&& old(self).leader_state->0.next_indices@.contains_key(old(dest).id)
                &&& 1 <= old(self).leader_state->0.next_indices@[old(dest).id]
                    <= old(self).log.items.len()
                &&& old(self).log.items.len() <= i64::MAX
            },
        ensures
            old(self).status != ServerStatus::Leader ==> {
                &&& result is None
                &&& *final(self) == *old(self)
                &&& *final(dest) == *old(dest)
            },
            old(self).status == ServerStatus::Leader ==> {
                let term = old(self).server_state.current_term;
                let items = old(self).log.items@;
                let next = old(self).leader_state->0.next_indices@[old(dest).id];
                let accepted = old(dest).accepts_term(term);
                let taken_after = accept_point(old(dest).log.items@, items, next - 1);
                let sent = items.subrange(taken_after + 1, items.len() as int);
                let reply = result->0;
                &&& result is Some
                // the follower takes the entries that follow the last index at which its
                // log agrees with the leader's, unless it refuses the leader's term
                &&& reply.success == accepted
                &&& reply.term == adopted_term(old(dest).server_state.current_term, term)
                &&& final(dest).server_state.current_term == reply.term
                &&& final(dest).status == (if term > old(dest).server_state.current_term {
                    ServerStatus::Follower
                } else {
                    old(dest).status
                })
                &&& final(dest).log.items@ == (if accepted {
                    merge_entries(old(dest).log.items@, sent)
                } else {
                    old(dest).log.items@
                })
                &&& final(dest).server_state.commit_index == (if accepted && sent.len() > 0 {
                    follower_commit(
                        old(dest).server_state.commit_index,
                        old(self).server_state.commit_index,
                        sent.last().index,
                    )
                } else {
                    old(dest).server_state.commit_index
                })
                &&& final(dest).server_state.voted_for == old(dest).server_state.voted_for
                &&& final(dest).server_state.last_applied == old(dest).server_state.last_applied
                &&& final(dest).id == old(dest).id
                &&& final(dest).available == old(dest).available
                &&& final(dest).state_machine == old(dest).state_machine
                &&& final(dest).leader_state == old(dest).leader_state
                // the leader steps down on a newer term and advances its commit index
                &&& final(self).server_state.current_term == adopted_term(term, reply.term)
                &&& final(self).status == (if reply.term > term {
                    ServerStatus::Follower
                } else {
                    ServerStatus::Leader
                })
                // a follower that took the entries is known to hold the whole log: its next
                // index moves to the end of the log and its match index to the last entry
                &&& final(self).leader_state is Some
                &&& final(self).leader_state->0.next_indices@ == (if reply.success {
                    old(self).leader_state->0.next_indices@.insert(old(dest).id, items.len() as u64)
                } else {
                    old(self).leader_state->0.next_indices@
                })
                &&& final(self).leader_state->0.match_indices@ == (if reply.success {
                    old(self).leader_state->0.match_indices@.insert(
                        old(dest).id,
                        (items.len() - 1) as u64,
                    )
                } else {
                    old(self).leader_state->0.match_indices@
                })
                &&& advanced_commit(
                    final(self).leader_state->0,
                    items,
                    final(self).server_state.current_term,
                    old(self).server_state.commit_index,
                    final(self).server_state.commit_index,
                )
                // the commit index only grows; the leader's log is left as it was
                &&& final(self).server_state.commit_index >= old(self).server_state.commit_index
                &&& final(self).log.items@ == items
                &&& final(self).server_state.voted_for == old(self).server_state.voted_for
                &&& final(self).server_state.last_applied == old(self).server_state.last_applied
                &&& final(self).id == old(self).id
                &&& final(self).available == old(self).available
                &&& final(self).state_machine == old(self).state_machine
            },
    {
        // must only be executed by Leader
        match &self.status {
            ServerStatus::Follower | ServerStatus::Candidate => {
                return None;
            },
            _ => {},
        }
        let ghost items = self.log.items@;
        let ghost term = self.server_state.current_term;
        let ghost dest0 = *dest;
        let ghost accepted = dest0.accepts_term(term);
        let ghost leader_state_before = self.leader_state;
        let starting_from = *self.leader_state.as_ref().unwrap().next_indices.get(&dest.id).unwrap();
        let start = starting_from as usize;
        let mut rpc = AppendEntriesRPC {
            term: self.server_state.current_term,
            leader_id: self.id,
            leader_commit: self.server_state.commit_index,
            log: self.entries_from(start),
            prev_log_index: (starting_from - 1) as i64,
            prev_log_term: self.log.items[start - 1].term,
        };
        let mut result = dest.handle_append_entries_rpc(rpc.clone());
        // Walk nextIndex back while an accepting follower refuses for want of the preceding
        // entry; a refusal for a newer term, or of entries that start the log, is final.
        while !result.success && result.term <= self.server_state.current_term
            && rpc.prev_log_index >= 0
            invariant
                self.log.items@ == items,
                self.server_state.current_term == term,
                self.leader_state == leader_state_before,
                items.len() <= i64::MAX,
                -1 <= rpc.prev_log_index < starting_from,
                starting_from <= items.len(),
                rpc.term == term,
                rpc.leader_commit == self.server_state.commit_index,
                rpc.log@ == items.subrange(rpc.prev_log_index + 1, items.len() as int),
                rpc.prev_log_index >= 0 ==> rpc.prev_log_term == items[rpc.prev_log_index as int].term,
                accepted == dest0.accepts_term(term),
                result.success == (accepted && succeeds_after(
                    dest0.log.items@,
                    items,
                    rpc.prev_log_index as int,
                )),
                result.term == adopted_term(dest0.server_state.current_term, term),
                accepted ==> forall|j: int|
                    rpc.prev_log_index < j < starting_from ==> !#[trigger] succeeds_after(
                        dest0.log.items@,
                        items,
                        j,
                    ),
                dest.server_state.current_term == adopted_term(
                    dest0.server_state.current_term,
                    term,
                ),
                dest.status == (if term > dest0.server_state.current_term {
                    ServerStatus::Follower
                } else {
                    dest0.status
                }),
                dest.log.items@ == (if result.success {
                    merge_entries(dest0.log.items@, rpc.log@)
                } else {
                    dest0.log.items@
                }),
                dest.server_state.commit_index == (if result.success && rpc.log.len() > 0 {
                    follower_commit(
                        dest0.server_state.commit_index,
                        rpc.leader_commit,
                        rpc.log@.last().index,
                    )
                } else {
                    dest0.server_state.commit_index
                }),
                dest.server_state.voted_for == dest0.server_state.voted_for,
                dest.server_state.last_applied == dest0.server_state.last_applied,
                dest.id == dest0.id,
                dest.available == dest0.available,
                dest.state_machine == dest0.state_machine,
                dest.leader_state == dest0.leader_state,
            decreases rpc.prev_log_index + 1,
        {
            let prev_log_index = rpc.prev_log_index - 1;
            let prev_log_term = if prev_log_index >= 0 {
                self.log.items[prev_log_index as usize].term
            } else {
                0
            };
            rpc = AppendEntriesRPC {
                prev_log_index,
                prev_log_term,
                log: self.entries_from((prev_log_index + 1) as usize),
                ..rpc
            };
            result = dest.handle_append_entries_rpc(rpc.clone());
        }
        proof {
            if result.success {
                accept_point_found(
                    dest0.log.items@,
                    items,
                    starting_from - 1,
                    rpc.prev_log_index as int,
                );
            }
        }
        // If RPC request or response contains term T > currentTerm: set currentTerm = T,
        // convert to follower
        if result.term > self.server_state.current_term {
            self.server_state.current_term = result.term;
            self.status = ServerStatus::Follower;
        }
        // If successful: update nextIndex and matchIndex for follower
        if result.success {
            let mut updated = self.leader_state.take().unwrap();
            let last = self.log.items.len() as u64;
            updated.next_indices.insert(dest.id, last);
            updated.match_indices.insert(dest.id, last - 1);
            self.leader_state = Some(updated);
        }
        let leader_state = self.leader_state.as_ref().unwrap();
        // If there exists an N such that N > commitIndex, a majority of matchIndex[i] >= N,
        // and log[N].term == currentTerm: set commitIndex = N
        let ghost term_now = self.server_state.current_term;
        let ghost commit = self.server_state.commit_index;
        let ghost ls = *leader_state;
        let ghost before_commit = *self;
        let len = self.log.items.len() as u64;
        let total = leader_state.match_indices.len() as u64;
        let mut n: u64 = len;
        while n > self.server_state.commit_index
            invariant_except_break
                self.server_state.commit_index == commit,
                n <= len,
                forall|m: int| n <= m ==> !#[trigger] can_commit(ls, items, term_now, m),
            invariant
                len == items.len(),
                total == ls.match_indices@.len(),
                self.log.items@ == items,
                self.server_state.current_term == term_now,
                *leader_state == ls,
                self.leader_state == Some(ls),
                self.status == before_commit.status,
                self.id == before_commit.id,
                self.available == before_commit.available,
                self.state_machine == before_commit.state_machine,
                self.server_state.voted_for == before_commit.server_state.voted_for,
                self.server_state.last_applied == before_commit.server_state.last_applied,
            ensures
                advanced_commit(ls, items, term_now, commit, self.server_state.commit_index),
            decreases n,
        {
            let candidate = n - 1;
            assert(candidate < self.log.items.len());
            let replicated = count_replicated(&leader_state.match_indices, candidate);
            // more than half of the match indices: 2 * replicated > total
            let is_majority = replicated > total - replicated;
            assert(is_majority == replicated_on_majority(ls, candidate as int));
            if is_majority && self.log.items[candidate as usize].term
                == self.server_state.current_term {
                self.server_state.commit_index = candidate;
                assert(can_commit(ls, items, term_now, candidate as int));
                break;
            }
            assert(!can_commit(ls, items, term_now, candidate as int));
            n = n - 1;
        }
        Some(result)
    }

    /// Keeps an election timer from firing. This library holds no timer: the caller that
    /// runs one resets it when a heartbeat is answered with success.
    pub fn heartbeat(&self) {
    }

    /// Follower side of AppendEntries.
    pub fn handle_append_entries_rpc(&mut self, args: AppendEntriesRPC) -> (result:
        AppendEntriesResult)
        ensures
            result.term == final(self).server_state.current_term,
            result.success == (old(self).accepts_term(args.term) && (args.log.len() == 0
                || old(self).prev_entry_matches(args))),
            final(self).server_state.current_term == adopted_term(
                old(self).server_state.current_term,
                args.term,
            ),
            final(self).status == (if args.term > old(self).server_state.current_term {
                ServerStatus::Follower
            } else {
                old(self).status
            }),
            final(self).log.items@ == (if result.success {
                merge_entries(old(self).log.items@, args.log@)
            } else {
                old(self).log.items@
            }),
            final(self).server_state.commit_index == (if result.success && args.log.len() > 0 {
                follower_commit(
                    old(self).server_state.commit_index,
                    args.leader_commit,
                    args.log@.last().index,
                )
            } else {
                old(self).server_state.commit_index
            }),
            // a reply never carries success to a sender of an older term
            args.term < old(self).server_state.current_term ==> !result.success,
            // the term never goes back
            final(self).server_state.current_term >= old(self).server_state.current_term,
            // the commit index never goes back, and commits nothing the leader has not
            final(self).server_state.commit_index >= old(self).server_state.commit_index,
            args.leader_commit <= old(self).server_state.commit_index ==> final(self).server_state.commit_index == old(self).server_state.commit_index,
            final(self).server_state.commit_index == old(self).server_state.commit_index || (
            final(self).server_state.commit_index <= args.leader_commit && args.log.len() > 0
                && final(self).server_state.commit_index <= args.log@.last().index),
            // entries that follow the preceding entry in order are installed as sent, unless
            // the log already held an entry of the same term at their index
            result.success && consecutive_from(args.log@, args.prev_log_index + 1) ==> forall|
                j: int,
            |
                0 <= j < args.log.len() ==> {
                    ||| #[trigger] final(self).log.items@[args.prev_log_index + 1 + j]
                        == args.log@[j]
                    ||| {
                        &&& args.prev_log_index + 1 + j < old(self).log.items.len()
                        &&& final(self).log.items@[args.prev_log_index + 1 + j] == old(self).log.items@[args.prev_log_index + 1 + j]
                        &&& old(self).log.items@[args.prev_log_index + 1 + j].term
                            == args.log@[j].term
                    }
                },
            final(self).id == old(self).id,
            final(self).available == old(self).available,
            final(self).state_machine == old(self).state_machine,
            final(self).leader_state == old(self).leader_state,
            final(self).server_state.voted_for == old(self).server_state.voted_for,
            final(self).server_state.last_applied == old(self).server_state.last_applied,
    {
        // If RPC request or response contains term T > currentTerm: set currentTerm = T,
        // convert to follower
        if args.term > self.server_state.current_term {
            self.server_state.current_term = args.term;
            self.status = ServerStatus::Follower;
        }
        let fail = AppendEntriesResult { term: self.server_state.current_term, success: false };
        let success = AppendEntriesResult { term: self.server_state.current_term, success: true };
        // This RPC can only be handled by followers
        match &self.status {
            ServerStatus::Leader | ServerStatus::Candidate => {
                return fail;
            },
            _ => {},
        }
        // 1. Reply false if term < currentTerm
        if args.term < self.server_state.current_term {
            return fail;
        }
        if args.log.len() == 0 {
            self.heartbeat();
            return success;
        }
        // 2. Reply false if log doesn't contain an entry at prevLogIndex whose term matches
        // prevLogTerm
        if args.prev_log_index > -1 {
            let prev = args.prev_log_index as u64;
            if prev >= self.log.items.len() as u64 || self.log.items[prev as usize].term
                != args.prev_log_term {
                return fail;
            }
        }
        // 3. If an existing entry conflicts with a new one (same index but different terms),
        // delete the existing entry and all that follow it
        // 4. Append any new entries not already in the log
        let ghost old_items = self.log.items@;
        let ghost before = *self;
        let mut i: usize = 0;
        while i < args.log.len()
            invariant
                0 <= i <= args.log.len(),
                self.server_state == before.server_state,
                self.status == before.status,
                self.id == before.id,
                self.available == before.available,
                self.state_machine == before.state_machine,
                self.leader_state == before.leader_state,
                self.log.items@ == merge_entries(old_items, args.log@.take(i as int)),
            decreases args.log.len() - i,
        {
            let entry = &args.log[i];
            proof {
                assert(args.log@.take(i + 1).drop_last() =~= args.log@.take(i as int));
                assert(args.log@.take(i + 1).last() == args.log@[i as int]);
            }
            if entry.index < (self.log.items.len() as u64) {
                let pos = entry.index as usize;
                if self.log.items[pos].term == entry.term {
                    i = i + 1;
                    continue;
                } else {
                    self.log.items.truncate(pos);
                }
            }
            self.log.items.push(entry.clone());
            i = i + 1;
        }
        proof {
            assert(args.log@.take(args.log.len() as int) =~= args.log@);
            if consecutive_from(args.log@, args.prev_log_index + 1) {
                assert(args.log@[0].index == args.prev_log_index + 1);
                merge_installs_entries(old_items, args.log@, args.prev_log_index + 1);
            }
        }
        // 5. If leaderCommit > commitIndex, set commitIndex = min(leaderCommit, index of last
        // new entry)
        // (never below the commit index already held)
        if args.leader_commit > self.server_state.commit_index {
            let last_index = args.log[args.log.len() - 1].index;
            let bound = if args.leader_commit < last_index {
                args.leader_commit
            } else {
                last_index
            };
            if bound > self.server_state.commit_index {
                self.server_state.commit_index = bound;
            }
        }
        success
    }
}

impl<'s> ServerPool<'s> {
    /// The server of the pool with id `id`, if there is one (the first, if several share it).
    pub fn find_server(&self, id: u64) -> (found: Option<&Server>)
        ensures
            match found {
                Some(server) => exists|i: int|
                    0 <= i < self.servers.len() && self.servers@[i] == *server
                        && server.id == id && forall|j: int|
                        0 <= j < i ==> self.servers@[j].id != id,
                None => forall|i: int| 0 <= i < self.servers.len() ==> self.servers@[i].id != id,
            },
    {
        let mut i: usize = 0;
        while i < self.servers.len()
            invariant
                0 <= i <= self.servers.len(),
                forall|j: int| 0 <= j < i ==> self.servers@[j].id != id,
            decreases self.servers.len() - i,
        {
            if self.servers[i].id == id {
                return Some(&self.servers[i]);
            }
            i = i + 1;
        }
        None
    }

    /// Some server of the pool has id `id`.
    pub open spec fn has_server(&self, id: u64) -> bool {
        exists|i: int| 0 <= i < self.servers.len() && self.servers@[i].id == id
    }
}

/// Delivery of a message to the server of a pool with a given id.
pub trait Rpc<T> {
    type Output;

    /// Runs the message on the receiving server, `dest_id`.
    fn execute_rpc(&self, args: T, dest_id: u64) -> Self::Output;
}

impl<'s> Rpc<RequestVoteRPC> for ServerPool<'s> {
    type Output = Option<()>;

    /// Delivered (`Some`) exactly when the pool holds a server with id `dest_id`.
    fn execute_rpc(&self, args: RequestVoteRPC, dest_id: u64) -> (delivered: Option<()>)
        ensures
            delivered is Some <==> self.has_server(dest_id),
    {
        if let Some(_server) = self.find_server(dest_id) {
            Some(())
        } else {
            None
        }
    }
}

impl<'s> Rpc<AppendEntriesRPC> for ServerPool<'s> {
    type Output = Option<()>;

    /// Delivered (`Some`) exactly when the pool holds a server with id `dest_id`.
    fn execute_rpc(&self, args: AppendEntriesRPC, dest_id: u64) -> (delivered: Option<()>)
        ensures
            delivered is Some <==> self.has_server(dest_id),
    {
        if let Some(_server) = self.find_server(dest_id) {
            Some(())
        } else {
            None
        }
    }
}

} // verus!
