use std::sync::mpsc::channel;

use barebones_raft::client::Client;
use barebones_raft::common;
use barebones_raft::node::{
    count_replicated, AppendEntriesRPC, RequestVoteRPC, Rpc, Server, ServerPool, ServerState,
    ServerStatus,
};
use barebones_raft::raft::log::{Log, SetCommand, StateMachine};

fn server(id: u64) -> Server {
    Server {
        id,
        state_machine: StateMachine::new(),
        log: Log { items: vec![] },
        status: ServerStatus::Follower,
        available: true,
        server_state: ServerState { current_term: 0, voted_for: 0, commit_index: 0, last_applied: 0 },
        leader_state: None,
    }
}

#[test]
fn execute_rpc_finds_destination_by_id() {
    let pool = ServerPool { servers: vec![server(1), server(2), server(3)], leader: None };
    let vote = RequestVoteRPC { term: 1, candidate_id: 1, last_log_index: 0, last_log_term: 0 };
    assert_eq!(pool.execute_rpc(vote, 2), Some(()));
    let vote = RequestVoteRPC { term: 1, candidate_id: 1, last_log_index: 0, last_log_term: 0 };
    assert_eq!(pool.execute_rpc(vote, 9), None);
    let append = AppendEntriesRPC { term: 1, leader_id: 1, prev_log_index: -1, prev_log_term: 0, log: vec![], leader_commit: 0 };
    assert_eq!(pool.execute_rpc(append.clone(), 3), Some(()));
    assert_eq!(pool.execute_rpc(append, 4), None);
    assert_eq!(pool.find_server(3).map(|s| s.id), Some(3));
    let mut second = server(3);
    second.available = false;
    let pool = ServerPool { servers: vec![server(1), server(3), second], leader: None };
    assert!(pool.find_server(3).unwrap().available);
    assert!(pool.find_server(0).is_none());
}

#[test]
fn count_replicated_counts_match_indices() {
    let m: std::collections::HashMap<u64, u64> = vec![(1, 5), (2, 3), (3, 7), (4, 0)].into_iter().collect();
    assert_eq!(count_replicated(&m, 4), 2);
    assert_eq!(count_replicated(&m, 0), 4);
    assert_eq!(count_replicated(&m, 8), 0);
}

#[test]
fn client_sends_on_its_channel() {
    let (sender, receiver) = channel::<SetCommand>();
    let _client = Client::new(sender.clone());
    sender.send(SetCommand::new("x".to_string(), "1".to_string())).unwrap();
    assert!(receiver.try_recv().is_ok());
}

#[test]
fn common_types_clone_and_default() {
    let log = common::log::Log::default();
    assert!(log.items.is_empty());
    let item = common::log::LogItem {
        command: common::log::SetCommand { key: "x".to_string(), value: "1".to_string() },
        term: 2,
        index: 1,
    };
    let copy = item.clone();
    assert_eq!(copy.command.key, "x");
    let state = common::state::ServerState::default();
    assert_eq!(state.current_term, 0);
    let leader = common::state::LeaderState::default();
    assert!(leader.next_indices.is_empty());
    assert!(matches!(common::state::ServerStatus::Leader.clone(), common::state::ServerStatus::Leader));
}
