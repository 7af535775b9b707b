use std::collections::HashMap;

use barebones_raft::node::{
    AppendEntriesRPC, ApplyResult, LeaderState, Server, ServerState, ServerStatus,
};
use barebones_raft::raft::log::{Log, LogItem, SetCommand, StateMachine};

fn item(key: &str, term: u64, index: u64) -> LogItem {
    LogItem { command: SetCommand::new(key.to_string(), format!("{}-{}", key, term)), term, index }
}

fn server(id: u64, status: ServerStatus, term: u64, terms: &[u64]) -> Server {
    let items = terms.iter().enumerate().map(|(i, t)| item("k", *t, i as u64)).collect();
    Server {
        id,
        state_machine: StateMachine::new(),
        log: Log { items },
        status,
        available: true,
        server_state: ServerState { current_term: term, voted_for: 0, commit_index: 0, last_applied: 0 },
        leader_state: None,
    }
}

fn rpc(term: u64, prev_log_index: i64, prev_log_term: u64, log: Vec<LogItem>, leader_commit: u64) -> AppendEntriesRPC {
    AppendEntriesRPC { term, leader_id: 1, prev_log_index, prev_log_term, log, leader_commit }
}

fn terms(s: &Server) -> Vec<u64> {
    s.log.items.iter().map(|i| i.term).collect()
}

fn is_follower(s: &Server) -> bool {
    matches!(s.status, ServerStatus::Follower)
}

#[test]
fn rejects_older_term() {
    let mut f = server(2, ServerStatus::Follower, 5, &[0, 1]);
    let r = f.handle_append_entries_rpc(rpc(4, 1, 1, vec![item("a", 4, 2)], 0));
    assert!(!r.success);
    assert_eq!(r.term, 5);
    assert_eq!(f.server_state.current_term, 5);
    assert_eq!(terms(&f), vec![0, 1]);
}

#[test]
fn leader_steps_down_on_newer_term() {
    let mut l = server(2, ServerStatus::Leader, 3, &[0, 1]);
    let r = l.handle_append_entries_rpc(rpc(7, -1, 0, vec![], 0));
    assert!(r.success);
    // the reply carries the term adopted from the request
    assert_eq!(r.term, 7);
    assert_eq!(l.server_state.current_term, 7);
    assert!(is_follower(&l));
}

#[test]
fn candidate_of_same_term_refuses() {
    let mut c = server(2, ServerStatus::Candidate, 3, &[0]);
    let r = c.handle_append_entries_rpc(rpc(3, -1, 0, vec![], 0));
    assert!(!r.success);
    assert!(matches!(c.status, ServerStatus::Candidate));
}

#[test]
fn heartbeat_succeeds_and_changes_no_log() {
    let mut f = server(2, ServerStatus::Follower, 3, &[0, 1, 3]);
    f.server_state.commit_index = 1;
    let r = f.handle_append_entries_rpc(rpc(3, 2, 3, vec![], 2));
    assert!(r.success);
    assert_eq!(terms(&f), vec![0, 1, 3]);
    assert_eq!(f.server_state.commit_index, 1);
}

#[test]
fn refuses_when_previous_entry_term_differs() {
    let mut f = server(2, ServerStatus::Follower, 3, &[0, 1, 2]);
    let r = f.handle_append_entries_rpc(rpc(3, 2, 3, vec![item("a", 3, 3)], 0));
    assert!(!r.success);
    assert_eq!(terms(&f), vec![0, 1, 2]);
}

#[test]
fn appends_new_entries_and_advances_commit() {
    let mut f = server(2, ServerStatus::Follower, 3, &[0, 1]);
    let r = f.handle_append_entries_rpc(rpc(3, 1, 1, vec![item("a", 3, 2), item("b", 3, 3)], 10));
    assert!(r.success);
    assert_eq!(terms(&f), vec![0, 1, 3, 3]);
    assert_eq!(f.log.items[3].index, 3);
    // min(leaderCommit, index of last new entry)
    assert_eq!(f.server_state.commit_index, 3);
}

#[test]
fn commit_takes_leader_commit_when_smaller() {
    let mut f = server(2, ServerStatus::Follower, 3, &[0, 1]);
    let r = f.handle_append_entries_rpc(rpc(3, 1, 1, vec![item("a", 3, 2), item("b", 3, 3)], 2));
    assert!(r.success);
    assert_eq!(f.server_state.commit_index, 2);
}

#[test]
fn commit_never_falls_below_old_commit() {
    // the last new entry lies below the commit index: min(5, 2) = 2 < 3 keeps 3
    let mut f = server(2, ServerStatus::Follower, 3, &[0, 1, 1, 1]);
    f.server_state.commit_index = 3;
    let r = f.handle_append_entries_rpc(rpc(3, 1, 1, vec![item("a", 1, 2)], 5));
    assert!(r.success);
    assert_eq!(f.server_state.commit_index, 3);
}

#[test]
fn refuses_when_previous_entry_is_missing() {
    let mut f = server(2, ServerStatus::Follower, 3, &[0, 1]);
    f.server_state.commit_index = 1;
    let r = f.handle_append_entries_rpc(rpc(3, 4, 3, vec![item("a", 3, 5)], 5));
    assert!(!r.success);
    assert_eq!(r.term, 3);
    assert_eq!(terms(&f), vec![0, 1]);
    assert_eq!(f.server_state.commit_index, 1);
}

#[test]
fn conflicting_entry_truncates_the_rest() {
    let mut f = server(2, ServerStatus::Follower, 4, &[0, 1, 1, 2, 2]);
    let r = f.handle_append_entries_rpc(rpc(4, 1, 1, vec![item("a", 1, 2), item("b", 4, 3)], 0));
    assert!(r.success);
    assert_eq!(terms(&f), vec![0, 1, 1, 4]);
    assert_eq!(f.log.items[3].index, 3);
}

#[test]
fn redelivery_leaves_log_unchanged() {
    let mut f = server(2, ServerStatus::Follower, 4, &[0, 1, 1, 2, 2]);
    let entries = vec![item("a", 1, 2), item("b", 4, 3), item("c", 4, 4)];
    let r1 = f.handle_append_entries_rpc(rpc(4, 1, 1, entries.clone(), 0));
    let after_first = terms(&f);
    let r2 = f.handle_append_entries_rpc(rpc(4, 1, 1, entries, 0));
    assert!(r1.success && r2.success);
    assert_eq!(after_first, vec![0, 1, 1, 4, 4]);
    assert_eq!(terms(&f), after_first);
    let indices: Vec<u64> = f.log.items.iter().map(|i| i.index).collect();
    assert_eq!(indices, vec![0, 1, 2, 3, 4]);
}

#[test]
fn entries_from_the_start_need_no_previous_entry() {
    let mut f = server(2, ServerStatus::Follower, 1, &[]);
    let r = f.handle_append_entries_rpc(rpc(1, -1, 0, vec![item("a", 1, 0)], 0));
    assert!(r.success);
    assert_eq!(terms(&f), vec![1]);
}

#[test]
fn append_command_stamps_term_and_index() {
    let mut l = server(1, ServerStatus::Leader, 6, &[0, 2]);
    l.append_command(SetCommand::new("x".to_string(), "1".to_string()));
    assert_eq!(l.log.items.len(), 3);
    assert_eq!(l.log.items[2].term, 6);
    assert_eq!(l.log.items[2].index, 2);
}

#[test]
fn checked_apply_applies_next_committed_entry() {
    let mut s = server(1, ServerStatus::Follower, 2, &[0, 1, 2]);
    s.server_state.commit_index = 2;
    assert!(matches!(s.checked_apply(), ApplyResult::Applied));
    assert_eq!(s.server_state.last_applied, 1);
    assert_eq!(s.state_machine.get("k"), Some("k-1".to_string()));
    assert!(matches!(s.checked_apply(), ApplyResult::Applied));
    assert_eq!(s.server_state.last_applied, 2);
    assert_eq!(s.state_machine.get("k"), Some("k-2".to_string()));
    assert!(matches!(s.checked_apply(), ApplyResult::Unchanged));
    assert_eq!(s.server_state.last_applied, 2);
}

fn leader_with(term: u64, terms_: &[u64], commit: u64, next: &[(u64, u64)], matched: &[(u64, u64)]) -> Server {
    let mut l = server(1, ServerStatus::Leader, term, terms_);
    l.server_state.commit_index = commit;
    l.leader_state = Some(LeaderState {
        next_indices: next.iter().cloned().collect::<HashMap<u64, u64>>(),
        match_indices: matched.iter().cloned().collect::<HashMap<u64, u64>>(),
    });
    l
}

#[test]
fn send_from_non_leader_does_nothing() {
    let mut f = server(1, ServerStatus::Follower, 3, &[0]);
    let mut d = server(2, ServerStatus::Follower, 2, &[0]);
    assert!(f.send_append_entries_rpc(&mut d).is_none());
    assert_eq!(d.server_state.current_term, 2);
}

#[test]
fn send_brings_follower_to_leader_term_and_commits() {
    let mut l = leader_with(3, &[0, 1, 3, 3], 1, &[(2, 4), (3, 4)], &[(2, 3), (3, 3), (4, 1)]);
    let mut d = server(2, ServerStatus::Candidate, 2, &[0, 1]);
    let r = l.send_append_entries_rpc(&mut d).unwrap();
    assert!(r.success);
    assert_eq!(r.term, 3);
    assert_eq!(d.server_state.current_term, 3);
    assert!(is_follower(&d));
    assert_eq!(terms(&d), vec![0, 1]);
    // two of three match indices reach 3 and entry 3 is of term 3
    assert_eq!(l.server_state.commit_index, 3);
    assert!(matches!(l.status, ServerStatus::Leader));
    assert_eq!(terms(&l), vec![0, 1, 3, 3]);
}

#[test]
fn send_keeps_commit_without_current_term_entry() {
    let mut l = leader_with(4, &[0, 1, 3, 3], 1, &[(2, 4)], &[(2, 3)]);
    let mut d = server(2, ServerStatus::Follower, 4, &[0]);
    let r = l.send_append_entries_rpc(&mut d).unwrap();
    assert!(r.success);
    assert_eq!(l.server_state.commit_index, 1);
}

#[test]
fn send_needs_majority_of_match_indices() {
    // match indices 3, 0, 0, 0: one of four is below half
    let mut l = leader_with(3, &[0, 3, 3, 3], 0, &[(2, 4)], &[(2, 3), (3, 0), (4, 0), (5, 0)]);
    let mut d = server(2, ServerStatus::Follower, 3, &[0]);
    l.send_append_entries_rpc(&mut d).unwrap();
    assert_eq!(l.server_state.commit_index, 0);
    // two of four reach 2: half is no majority
    let mut l = leader_with(3, &[0, 3, 3, 3], 0, &[(2, 4)], &[(2, 3), (3, 2), (4, 0), (5, 0)]);
    l.send_append_entries_rpc(&mut d).unwrap();
    assert_eq!(l.server_state.commit_index, 0);
    // three of four reach 2
    let mut l = leader_with(3, &[0, 3, 3, 3], 0, &[(2, 4)], &[(2, 3), (3, 2), (4, 2), (5, 0)]);
    l.send_append_entries_rpc(&mut d).unwrap();
    assert_eq!(l.server_state.commit_index, 2);
    // one of two is no majority either
    let mut l = leader_with(3, &[0, 1, 3, 3], 1, &[(2, 4)], &[(2, 3), (3, 0)]);
    l.send_append_entries_rpc(&mut d).unwrap();
    assert_eq!(l.server_state.commit_index, 1);
}

#[test]
fn send_replicates_entries_from_next_index() {
    let mut l = leader_with(3, &[0, 1, 1, 3, 3], 2, &[(2, 2)], &[(2, 0)]);
    let mut d = server(2, ServerStatus::Follower, 3, &[0, 1]);
    let r = l.send_append_entries_rpc(&mut d).unwrap();
    assert!(r.success);
    assert_eq!(terms(&d), vec![0, 1, 1, 3, 3]);
    let indices: Vec<u64> = d.log.items.iter().map(|i| i.index).collect();
    assert_eq!(indices, vec![0, 1, 2, 3, 4]);
    // min(leaderCommit 2, last new index 4)
    assert_eq!(d.server_state.commit_index, 2);
    assert_eq!(terms(&l), vec![0, 1, 1, 3, 3]);
    // the follower now holds the whole log
    let ls = l.leader_state.as_ref().unwrap();
    assert_eq!(ls.next_indices.get(&2), Some(&5));
    assert_eq!(ls.match_indices.get(&2), Some(&4));
    // and, as the only match index, makes entry 4 (of the current term) committed
    assert_eq!(l.server_state.commit_index, 4);
}

#[test]
fn send_walks_back_until_logs_agree() {
    let mut l = leader_with(3, &[0, 1, 1, 3, 3], 0, &[(2, 4), (3, 1)], &[(2, 0), (3, 0)]);
    let mut d = server(2, ServerStatus::Follower, 3, &[0, 1, 2, 2]);
    let r = l.send_append_entries_rpc(&mut d).unwrap();
    assert!(r.success);
    assert_eq!(terms(&d), vec![0, 1, 1, 3, 3]);
    // only the follower that answered moves
    let ls = l.leader_state.as_ref().unwrap();
    assert_eq!(ls.next_indices.get(&2), Some(&5));
    assert_eq!(ls.match_indices.get(&2), Some(&4));
    assert_eq!(ls.next_indices.get(&3), Some(&1));
    assert_eq!(ls.match_indices.get(&3), Some(&0));
}

#[test]
fn send_walks_back_to_the_start_of_the_log() {
    let mut l = leader_with(2, &[1, 2], 0, &[(2, 1)], &[(2, 0)]);
    let mut d = server(2, ServerStatus::Follower, 2, &[]);
    let r = l.send_append_entries_rpc(&mut d).unwrap();
    assert!(r.success);
    assert_eq!(terms(&d), vec![1, 2]);
}

#[test]
fn send_to_follower_of_newer_term_steps_down() {
    let mut l = leader_with(3, &[0, 1, 3], 1, &[(2, 2)], &[(2, 2)]);
    let mut d = server(2, ServerStatus::Follower, 5, &[0]);
    let r = l.send_append_entries_rpc(&mut d).unwrap();
    assert!(!r.success);
    assert_eq!(r.term, 5);
    assert_eq!(l.server_state.current_term, 5);
    assert!(is_follower(&l));
    assert_eq!(terms(&d), vec![0]);
    assert_eq!(d.server_state.current_term, 5);
    // a refused follower's next and match indices stay as they were
    let ls = l.leader_state.as_ref().unwrap();
    assert_eq!(ls.next_indices.get(&2), Some(&2));
    assert_eq!(ls.match_indices.get(&2), Some(&2));
}

#[test]
fn send_to_candidate_of_same_term_is_refused() {
    let mut l = leader_with(3, &[0, 1, 3], 1, &[(2, 3)], &[(2, 2)]);
    let mut d = server(2, ServerStatus::Candidate, 3, &[0, 1]);
    let r = l.send_append_entries_rpc(&mut d).unwrap();
    assert!(!r.success);
    assert_eq!(r.term, 3);
    assert!(matches!(l.status, ServerStatus::Leader));
    assert!(matches!(d.status, ServerStatus::Candidate));
    assert_eq!(terms(&d), vec![0, 1]);
}
