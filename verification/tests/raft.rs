use raft_core::message::{
    AppendEntriesRequestMessage, AppendEntriesResponseMessage, Message, VoteRequestMessage,
    VoteResponseMessage,
};
use raft_core::state::{Configuration, LogEntry, Role};
use raft_core::Raft;

fn heartbeat(term: u64, leader_id: u64) -> Message {
    Message::AppendEntriesRequest(AppendEntriesRequestMessage {
        term,
        leader_id,
        previous_log_index: 0,
        previous_log_term: 0,
        entries: Vec::new(),
        leader_commit_index: 0,
    })
}

fn granted_vote(term: u64) -> Message {
    Message::VoteResponse(VoteResponseMessage { term, vote_granted: true })
}

#[test]
fn as_a_follower_it_starts_an_election_after_its_timeout_elapses() {
    // we set the min and max election timeout to the same value to make testing easier
    let config = Configuration::new(1, vec![2, 3], 2, 2);
    let mut raft = Raft::new(config);

    raft.tick(Vec::new());
    raft.tick(Vec::new());

    assert_eq!(raft.state.role, Role::Candidate);
    assert_eq!(raft.state.timeout, 2);
}

#[test]
fn as_a_candidate_it_starts_a_new_election_after_its_election_timeout_elapses() {
    // we set the min and max election timeout to the same value to make testing easier
    let config = Configuration::new(1, vec![2, 3], 2, 2);
    let mut raft = Raft::new(config);

    // trigger an election manually
    raft.start_election();

    raft.tick(Vec::new());
    raft.tick(Vec::new());

    assert_eq!(raft.state.role, Role::Candidate);
    assert_eq!(raft.state.timeout, 2);
}

#[test]
fn a_follower_election_increments_the_term_and_requests_votes() {
    let config = Configuration::new(1, vec![2, 3], 2, 2);
    let mut raft = Raft::new(config);
    assert_eq!(raft.state.persistent_state.current_term, 0);

    raft.tick(Vec::new());
    let out = raft.tick(Vec::new());

    assert_eq!(raft.state.role, Role::Candidate);
    assert_eq!(raft.state.timeout, 2);
    assert_eq!(raft.state.persistent_state.current_term, 1);
    assert_eq!(raft.state.persistent_state.voted_for, Some(1));
    assert_eq!(out.len(), 2);
    for (i, (to, msg)) in out.iter().enumerate() {
        assert_eq!(*to, [2u64, 3u64][i]);
        match msg {
            Message::VoteRequest(r) => {
                assert_eq!(r.term, 1);
                assert_eq!(r.candidate_id, 1);
                assert_eq!(r.last_log_index, 0);
                assert_eq!(r.last_log_term, 0);
            }
            _ => panic!("expected a VoteRequest"),
        }
    }
}

#[test]
fn a_candidate_with_a_majority_of_votes_becomes_leader() {
    let config = Configuration::new(1, vec![2, 3], 2, 2);
    let mut raft = Raft::new(config);
    raft.start_election();
    assert_eq!(raft.state.persistent_state.current_term, 1);

    let out = raft.tick(vec![(2, granted_vote(1)), (3, granted_vote(1))]);

    assert_eq!(raft.state.role, Role::Leader);
    // own log holds no real entry yet, so every peer's next index is 1
    assert_eq!(raft.state.volatile_leader_state.next_index, vec![1, 1]);
    assert_eq!(raft.state.volatile_leader_state.match_index, vec![0, 0]);
    // leadership is asserted with an immediate empty AppendEntries to each peer
    assert_eq!(out.len(), 2);
    for (_, msg) in &out {
        match msg {
            Message::AppendEntriesRequest(r) => {
                assert_eq!(r.term, 1);
                assert_eq!(r.entries.len(), 0);
            }
            _ => panic!("expected an AppendEntries heartbeat"),
        }
    }
}

#[test]
fn a_rejected_append_lowers_next_index_and_resends_the_entries() {
    let config = Configuration::new(1, vec![2, 3], 3, 3);
    let mut raft = Raft::new(config);

    // receive one entry as a follower in term 1
    raft.tick(vec![(
        2,
        Message::AppendEntriesRequest(AppendEntriesRequestMessage {
            term: 1,
            leader_id: 2,
            previous_log_index: 0,
            previous_log_term: 0,
            entries: vec![LogEntry { term: 1, command: 7 }],
            leader_commit_index: 0,
        }),
    )]);
    // time out and win the election for term 2
    raft.tick(Vec::new());
    raft.tick(Vec::new());
    raft.tick(Vec::new());
    assert_eq!(raft.state.role, Role::Candidate);
    raft.tick(vec![(2, granted_vote(2))]);
    assert_eq!(raft.state.role, Role::Leader);
    assert_eq!(raft.state.volatile_leader_state.next_index, vec![2, 2]);

    // a peer rejects: its next index goes down and the entries are resent
    let out = raft.tick(vec![(
        2,
        Message::AppendEntriesResponse(AppendEntriesResponseMessage {
            term: 2,
            success: false,
            match_index: 0,
        }),
    )]);

    assert_eq!(raft.state.volatile_leader_state.next_index, vec![1, 2]);
    let (to, msg) = out.last().expect("a retry must be sent");
    assert_eq!(*to, 2);
    match msg {
        Message::AppendEntriesRequest(r) => {
            assert_eq!(r.previous_log_index, 0);
            assert_eq!(r.previous_log_term, 0);
            assert_eq!(r.entries, vec![LogEntry { term: 1, command: 7 }]);
        }
        _ => panic!("expected the entries to be resent"),
    }
}

#[test]
fn any_request_with_a_higher_term_turns_the_node_into_a_follower() {
    let config = Configuration::new(1, vec![2, 3], 2, 2);
    let mut raft = Raft::new(config);
    raft.start_election();
    raft.start_election();
    raft.start_election();
    assert_eq!(raft.state.persistent_state.current_term, 3);
    assert_eq!(raft.state.role, Role::Candidate);
    assert_eq!(raft.state.persistent_state.voted_for, Some(1));

    raft.tick(vec![(2, heartbeat(5, 2))]);

    assert_eq!(raft.state.persistent_state.current_term, 5);
    assert_eq!(raft.state.role, Role::Follower);
    assert_eq!(raft.state.persistent_state.voted_for, None);
}

#[test]
fn a_leader_commits_an_entry_acknowledged_by_a_majority() {
    let config = Configuration::new(1, vec![2, 3], 2, 2);
    let mut raft = Raft::new(config);
    raft.start_election();
    raft.tick(vec![(2, granted_vote(1))]);
    assert_eq!(raft.state.role, Role::Leader);

    assert!(raft.propose(9));
    assert_eq!(raft.state.volatile_state.commit_index, 0);

    raft.tick(vec![(
        2,
        Message::AppendEntriesResponse(AppendEntriesResponseMessage {
            term: 1,
            success: true,
            match_index: 1,
        }),
    )]);

    // the leader itself plus one peer is a majority of three
    assert_eq!(raft.state.volatile_state.commit_index, 1);
    assert_eq!(raft.state.volatile_leader_state.match_index, vec![1, 0]);
    assert_eq!(raft.state.volatile_leader_state.next_index, vec![2, 1]);
}

#[test]
fn a_vote_is_granted_and_recorded_for_a_current_candidate() {
    let config = Configuration::new(1, vec![2, 3], 2, 2);
    let mut raft = Raft::new(config);

    let out = raft.tick(vec![(
        2,
        Message::VoteRequest(VoteRequestMessage {
            term: 1,
            candidate_id: 2,
            last_log_index: 0,
            last_log_term: 0,
        }),
    )]);

    assert_eq!(raft.state.persistent_state.voted_for, Some(2));
    assert_eq!(out.len(), 1);
    assert_eq!(out[0].0, 2);
    match &out[0].1 {
        Message::VoteResponse(r) => {
            assert_eq!(r.term, 1);
            assert!(r.vote_granted);
        }
        _ => panic!("expected a VoteResponse"),
    }
}

#[test]
fn a_vote_is_withheld_once_given_to_another_candidate() {
    let config = Configuration::new(1, vec![2, 3], 5, 5);
    let mut raft = Raft::new(config);

    raft.tick(vec![(
        2,
        Message::VoteRequest(VoteRequestMessage {
            term: 1,
            candidate_id: 2,
            last_log_index: 0,
            last_log_term: 0,
        }),
    )]);
    assert_eq!(raft.state.persistent_state.voted_for, Some(2));

    let out = raft.tick(vec![(
        3,
        Message::VoteRequest(VoteRequestMessage {
            term: 1,
            candidate_id: 3,
            last_log_index: 0,
            last_log_term: 0,
        }),
    )]);

    assert_eq!(raft.state.persistent_state.voted_for, Some(2));
    match &out[0].1 {
        Message::VoteResponse(r) => {
            assert_eq!(r.term, 1);
            assert!(!r.vote_granted);
        }
        _ => panic!("expected a VoteResponse"),
    }
}

#[test]
fn a_vote_is_withheld_from_a_candidate_with_a_stale_log() {
    let config = Configuration::new(1, vec![2, 3], 5, 5);
    let mut raft = Raft::new(config);

    raft.tick(vec![(
        2,
        Message::AppendEntriesRequest(AppendEntriesRequestMessage {
            term: 1,
            leader_id: 2,
            previous_log_index: 0,
            previous_log_term: 0,
            entries: vec![LogEntry { term: 1, command: 7 }],
            leader_commit_index: 0,
        }),
    )]);

    let out = raft.tick(vec![(
        3,
        Message::VoteRequest(VoteRequestMessage {
            term: 2,
            candidate_id: 3,
            last_log_index: 0,
            last_log_term: 0,
        }),
    )]);

    // the greater term is adopted, but the vote is withheld
    assert_eq!(raft.state.persistent_state.current_term, 2);
    assert_eq!(raft.state.persistent_state.voted_for, None);
    match &out[0].1 {
        Message::VoteResponse(r) => {
            assert_eq!(r.term, 2);
            assert!(!r.vote_granted);
        }
        _ => panic!("expected a VoteResponse"),
    }
}

#[test]
fn an_append_from_a_stale_leader_is_rejected() {
    let config = Configuration::new(1, vec![2, 3], 5, 5);
    let mut raft = Raft::new(config);
    raft.tick(vec![(2, heartbeat(2, 2))]);
    assert_eq!(raft.state.persistent_state.current_term, 2);

    let out = raft.tick(vec![(3, heartbeat(1, 3))]);

    assert_eq!(raft.state.persistent_state.current_term, 2);
    match &out[0].1 {
        Message::AppendEntriesResponse(r) => {
            assert_eq!(r.term, 2);
            assert!(!r.success);
        }
        _ => panic!("expected an AppendEntriesResponse"),
    }
}

#[test]
fn conflicting_entries_are_truncated_and_replaced() {
    let config = Configuration::new(1, vec![2, 3], 9, 9);
    let mut raft = Raft::new(config);

    raft.tick(vec![(
        2,
        Message::AppendEntriesRequest(AppendEntriesRequestMessage {
            term: 1,
            leader_id: 2,
            previous_log_index: 0,
            previous_log_term: 0,
            entries: vec![LogEntry { term: 1, command: 7 }, LogEntry { term: 1, command: 8 }],
            leader_commit_index: 0,
        }),
    )]);
    assert_eq!(
        raft.state.persistent_state.log,
        vec![
            LogEntry { term: 0, command: 0 },
            LogEntry { term: 1, command: 7 },
            LogEntry { term: 1, command: 8 },
        ]
    );

    let out = raft.tick(vec![(
        3,
        Message::AppendEntriesRequest(AppendEntriesRequestMessage {
            term: 2,
            leader_id: 3,
            previous_log_index: 0,
            previous_log_term: 0,
            entries: vec![LogEntry { term: 2, command: 9 }],
            leader_commit_index: 0,
        }),
    )]);

    assert_eq!(
        raft.state.persistent_state.log,
        vec![LogEntry { term: 0, command: 0 }, LogEntry { term: 2, command: 9 }]
    );
    match &out[0].1 {
        Message::AppendEntriesResponse(r) => {
            assert!(r.success);
            assert_eq!(r.match_index, 1);
        }
        _ => panic!("expected an AppendEntriesResponse"),
    }
}

#[test]
fn heartbeats_keep_a_follower_from_starting_an_election() {
    let config = Configuration::new(1, vec![2, 3], 2, 2);
    let mut raft = Raft::new(config);

    for _ in 0..5 {
        raft.tick(vec![(2, heartbeat(1, 2))]);
        assert_eq!(raft.state.role, Role::Follower);
    }
    assert_eq!(raft.state.persistent_state.current_term, 1);
}

#[test]
fn a_node_without_peers_elects_itself() {
    let config = Configuration::new(1, Vec::new(), 2, 2);
    let mut raft = Raft::new(config);

    raft.tick(Vec::new());
    raft.tick(Vec::new());

    assert_eq!(raft.state.role, Role::Leader);
    assert_eq!(raft.state.persistent_state.current_term, 1);
    assert_eq!(raft.state.persistent_state.voted_for, Some(1));
}

#[test]
fn the_commit_index_follows_the_leader_and_never_goes_back() {
    let config = Configuration::new(1, vec![2, 3], 9, 9);
    let mut raft = Raft::new(config);

    raft.tick(vec![(
        2,
        Message::AppendEntriesRequest(AppendEntriesRequestMessage {
            term: 1,
            leader_id: 2,
            previous_log_index: 0,
            previous_log_term: 0,
            entries: vec![LogEntry { term: 1, command: 7 }],
            leader_commit_index: 5,
        }),
    )]);
    // capped at the last new entry
    assert_eq!(raft.state.volatile_state.commit_index, 1);

    raft.tick(vec![(
        2,
        Message::AppendEntriesRequest(AppendEntriesRequestMessage {
            term: 1,
            leader_id: 2,
            previous_log_index: 1,
            previous_log_term: 1,
            entries: Vec::new(),
            leader_commit_index: 0,
        }),
    )]);
    // a heartbeat with a lower leader commit never lowers it
    assert_eq!(raft.state.volatile_state.commit_index, 1);
}

#[test]
fn a_command_is_only_accepted_by_a_leader() {
    let config = Configuration::new(1, vec![2, 3], 2, 2);
    let mut raft = Raft::new(config);

    assert!(!raft.propose(9));
    assert_eq!(raft.state.persistent_state.log.len(), 1);

    raft.start_election();
    raft.tick(vec![(2, granted_vote(1))]);
    assert_eq!(raft.state.role, Role::Leader);

    assert!(raft.propose(9));
    assert_eq!(
        raft.state.persistent_state.log,
        vec![LogEntry { term: 0, command: 0 }, LogEntry { term: 1, command: 9 }]
    );
}

#[test]
fn the_accessors_mirror_the_state() {
    let config = Configuration::new(1, vec![2, 3], 2, 2);
    let mut raft = Raft::new(config);
    raft.start_election();
    raft.tick(vec![(2, granted_vote(1))]);
    raft.propose(9);

    assert_eq!(raft.role(), Role::Leader);
    assert_eq!(raft.current_term(), 1);
    assert_eq!(raft.commit_index(), 0);
    assert_eq!(raft.log(), &vec![
        LogEntry { term: 0, command: 0 },
        LogEntry { term: 1, command: 9 },
    ]);
}

#[test]
fn duplicate_vote_responses_count_once() {
    let config = Configuration::new(1, vec![2, 3, 4, 5], 9, 9);
    let mut raft = Raft::new(config);
    raft.start_election();

    // two votes from the same peer are one vote: 2 of 5 is no majority
    raft.tick(vec![(2, granted_vote(1)), (2, granted_vote(1))]);
    assert_eq!(raft.state.role, Role::Candidate);

    // a third distinct voter tips it: 3 of 5
    raft.tick(vec![(3, granted_vote(1))]);
    assert_eq!(raft.state.role, Role::Leader);
}

#[test]
fn votes_from_outside_the_cluster_do_not_count() {
    let config = Configuration::new(1, vec![2, 3], 9, 9);
    let mut raft = Raft::new(config);
    raft.start_election();

    raft.tick(vec![(8, granted_vote(1)), (9, granted_vote(1))]);
    assert_eq!(raft.state.role, Role::Candidate);

    raft.tick(vec![(2, granted_vote(1))]);
    assert_eq!(raft.state.role, Role::Leader);
}

#[test]
fn two_nodes_with_equal_configuration_step_identically() {
    let mut a = Raft::new(Configuration::new(4, vec![2, 3], 3, 9));
    let mut b = Raft::new(Configuration::new(4, vec![2, 3], 3, 9));

    for _ in 0..20 {
        a.tick(Vec::new());
        b.tick(Vec::new());
        assert_eq!(a.state.role, b.state.role);
        assert_eq!(a.state.timeout, b.state.timeout);
        assert_eq!(a.state.persistent_state.current_term, b.state.persistent_state.current_term);
    }
}
