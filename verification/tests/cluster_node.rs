use kv_store::message::{Command, LogEntry, Response};
use kv_store::node::{
    append_failure, count_votes, vote_answer, write_response, AckStep, ElectionEnd, Node, Role, Route, WriteEnd,
    WriteStatus,
};
use kv_store::raft_log::{AppendOutcome, RaftLog};
use kv_store::state::RaftState;
use kv_store::wal::{Wal, WalError};

fn empty_log() -> RaftLog {
    let (wal, _, _) = Wal::open("wal.log".to_string(), &[]).unwrap();
    RaftLog::open(wal, &[], &[]).0
}

fn put(key: &str, value: u8) -> Command {
    Command::Put { key: key.to_string(), value: vec![value] }
}

fn push(log: &mut RaftLog, term: u64, command: Command) -> u64 {
    log.append_command(term, command, &[0; 4], true).unwrap()
}

fn node(id: &str, peers: &[&str]) -> Node {
    let peers = peers.iter().map(|p| p.to_string()).collect();
    Node::new(id.to_string(), peers, RaftState::default())
}

fn leader(peers: &[&str], log: &RaftLog) -> Node {
    let mut node = node("n1", peers);
    assert!(node.check_timeout(2, 1));
    let term = node.start_election();
    assert_eq!(node.finish_election(term, node.majority() as u64, log), (ElectionEnd::Won, Some(Command::NoOp)));
    node
}

fn ack(term: u64, success: bool, match_index: u64, conflict_index: u64) -> Response {
    Response::AppendEntriesAck { term, success, match_index, conflict_index }
}

#[test]
fn majorities() {
    let sizes: Vec<usize> = (0..5)
        .map(|n| Node::new(String::new(), vec![String::new(); n], RaftState::default()).majority())
        .collect();
    assert_eq!(sizes, vec![1, 2, 2, 3, 3]);
}

#[test]
fn a_newer_term_is_adopted_and_clears_the_vote() {
    let log = empty_log();
    let mut node = leader(&["n2", "n3"], &log);
    assert_eq!((node.term(), node.role()), (1, Role::Leader));
    assert_eq!(node.snapshot().voted_for.as_deref(), Some("n1"));
    assert!(!node.adopt_term_if_newer(1));
    assert!(node.is_leader());
    assert!(node.adopt_term_if_newer(4));
    assert_eq!((node.term(), node.role()), (4, Role::Follower));
    assert_eq!(node.snapshot().voted_for, None);
}

fn vote(term: u64, vote_granted: bool) -> Response {
    Response::VoteResponse { term, vote_granted }
}

#[test]
fn one_vote_per_term() {
    let log = empty_log();
    let mut node = node("n1", &["n2", "n3"]);
    let first = node.handle_request_vote(1, "n2".to_string(), 0, 0, &log);
    assert_eq!((first.term, first.granted, first.needs_save), (1, true, true));
    assert_eq!(vote_answer(first, true), vote(1, true));

    let second = node.handle_request_vote(1, "n3".to_string(), 0, 0, &log);
    assert_eq!((second.term, second.granted, second.needs_save), (1, false, false));
    assert_eq!(vote_answer(second, true), vote(1, false));

    // A retry of the first keeps its vote.
    let retry = node.handle_request_vote(1, "n2".to_string(), 0, 0, &log);
    assert_eq!(vote_answer(retry, true), vote(1, true));

    // So does the vote after a restart.
    let mut again = Node::new("n1".to_string(), Vec::new(), node.snapshot());
    let stranger = again.handle_request_vote(1, "n3".to_string(), 0, 0, &log);
    assert_eq!(vote_answer(stranger, true), vote(1, false));

    // An older term is refused, and told the current one.
    let old = node.handle_request_vote(0, "n3".to_string(), 9, 9, &log);
    assert_eq!(vote_answer(old, true), vote(1, false));
}

#[test]
fn a_vote_that_could_not_be_saved_is_not_given() {
    let log = empty_log();
    let mut node = node("n1", &["n2", "n3"]);
    let reply = node.handle_request_vote(1, "n2".to_string(), 0, 0, &log);
    assert_eq!(vote_answer(reply, false), vote(1, false));

    // The vote is still promised, and a retry has to save it before it is given.
    let retry = node.handle_request_vote(1, "n2".to_string(), 0, 0, &log);
    assert!(retry.granted && retry.needs_save);
    assert_eq!(vote_answer(retry, false), vote(1, false));
    let stranger = node.handle_request_vote(1, "n3".to_string(), 0, 0, &log);
    assert_eq!(vote_answer(stranger, true), vote(1, false));
    let retry = node.handle_request_vote(1, "n2".to_string(), 0, 0, &log);
    assert_eq!(vote_answer(retry, true), vote(1, true));
}

#[test]
fn nobody_is_asked_before_the_own_vote_is_saved() {
    let log = empty_log();
    let mut node = node("n1", &["n2", "n3"]);
    assert!(node.check_timeout(2, 1));
    let term = node.start_election();
    assert!(node.request_votes(term, false, &log).is_none());
    assert_eq!((node.role(), node.term()), (Role::Follower, 1));

    assert!(node.check_timeout(2, 1));
    let term = node.start_election();
    let request = node.request_votes(term, true, &log);
    assert_eq!(request, Some(node.vote_request(2, &log)));
    assert_eq!(node.role(), Role::Candidate);
}

#[test]
fn no_vote_for_a_log_that_is_behind() {
    let mut log = empty_log();
    push(&mut log, 2, put("a", 1));
    push(&mut log, 2, put("b", 2));
    let mut node = node("n1", &["n2", "n3"]);
    let behind = node.handle_request_vote(3, "n2".to_string(), 1, 2, &log);
    assert!(behind.needs_save, "the term was adopted all the same");
    assert_eq!(vote_answer(behind, true), vote(3, false));
    let ahead = node.handle_request_vote(3, "n3".to_string(), 1, 3, &log);
    assert_eq!(vote_answer(ahead, true), vote(3, true));
    let decision = node.decide_vote(&"n2".to_string(), 4, 2, 2, 2, 2);
    assert!(decision.granted && decision.needs_save);
    let retried = node.decide_vote(&"n2".to_string(), 4, 2, 2, 2, 2);
    assert!(retried.granted && !retried.needs_save);
}

#[test]
fn elections_are_won_lost_or_stale() {
    let log = empty_log();
    let mut node = node("n1", &["n2", "n3"]);
    assert!(!node.check_timeout(5, 5), "not yet");
    assert!(node.check_timeout(6, 5));
    assert_eq!(node.role(), Role::Candidate);
    assert!(!node.check_timeout(6, 5), "a candidate does not time out again");
    let term = node.start_election();
    assert_eq!(term, 1);
    assert_eq!(
        node.vote_request(term, &log),
        Command::RequestVote {
            term: 1,
            candidate_id: "n1".to_string(),
            last_log_index: 0,
            last_log_term: 0
        }
    );
    assert_eq!(node.finish_election(term, 1, &log), (ElectionEnd::Lost, None));
    assert_eq!(node.role(), Role::Follower);

    let term = node.start_election();
    node.adopt_term_if_newer(7);
    assert_eq!(node.finish_election(term, 3, &log), (ElectionEnd::Stale, None));
    assert_eq!(node.role(), Role::Follower);

    let term = node.start_election();
    assert_eq!(term, 8);
    let won = (ElectionEnd::Won, Some(Command::NoOp));
    assert_eq!(node.finish_election(term, 2, &log), won);
    assert!(node.is_leader());
    assert!(matches!(node.become_leader(&log), Command::NoOp));
}

#[test]
fn only_granted_votes_count() {
    let vote = |vote_granted| Some(Response::VoteResponse { term: 1, vote_granted });
    let replies = vec![vote(true), None, vote(false), Some(Response::Done), vote(true)];
    assert_eq!(count_votes(&replies), 3);
    assert_eq!(count_votes(&[]), 1);
}

#[test]
fn a_single_node_commits_on_its_own() {
    let mut log = empty_log();
    let mut node = leader(&[], &log);
    push(&mut log, node.term(), Command::NoOp);
    push(&mut log, node.term(), put("a", 1));
    assert_eq!(node.advance_leader_commit(&log), Some(2));
    assert_eq!(node.advance_leader_commit(&log), None);
    assert_eq!(node.commit_index(), 2);
    assert_eq!(node.key_count(), 1);
    match node.route(Command::Get { key: "a".to_string() }) {
        Route::Reply(response) => assert_eq!(response, Response::Value(Some(vec![1]))),
        _ => panic!("a read is answered at once"),
    }
}

#[test]
fn a_majority_of_copies_commits_an_entry_of_this_term() {
    let mut log = empty_log();
    push(&mut log, 0, put("old", 0));
    let mut node = leader(&["n2", "n3"], &log);
    let n2 = "n2".to_string();

    // An older entry on a majority does not commit by itself.
    assert_eq!(node.handle_append_ack(&n2, 1, &ack(1, true, 1, 0)), AckStep::Recount);
    assert_eq!(node.advance_leader_commit(&log), None);

    // The no-op of this term commits it too.
    push(&mut log, 1, Command::NoOp);
    assert_eq!(node.advance_leader_commit(&log), None, "one copy of three");
    assert_eq!(node.handle_append_ack(&n2, 1, &ack(1, true, 2, 0)), AckStep::Recount);
    assert_eq!(node.advance_leader_commit(&log), Some(2));
    assert_eq!(node.key_count(), 1);

    // A reordered acknowledgement moves nothing back.
    assert_eq!(node.handle_append_ack(&n2, 1, &ack(1, true, 1, 0)), AckStep::Recount);
    match node.replication_message("n2", &log) {
        Some(Command::AppendEntries { prev_log_index, entries, .. }) => {
            assert_eq!(prev_log_index, 2);
            assert!(entries.is_empty(), "a caught-up peer gets a heartbeat");
        }
        other => panic!("unexpected {:?}", other),
    }
}

#[test]
fn replication_ships_what_is_missing() {
    let mut log = empty_log();
    let mut node = leader(&["n2"], &log);
    for i in 0..70u8 {
        push(&mut log, 1, put("k", i));
    }
    // The first guess is that the peer has everything from before the election.
    let n2 = "n2".to_string();
    match node.replication_message("n2", &log) {
        Some(Command::AppendEntries {
            term,
            leader_id,
            prev_log_index,
            prev_log_term,
            entries,
            leader_commit,
        }) => {
            assert_eq!((term, leader_id.as_str(), leader_commit), (1, "n1", 0));
            assert_eq!((prev_log_index, prev_log_term), (0, 0));
            assert_eq!(entries.len(), 64);
            assert_eq!(entries[0], LogEntry { term: 1, index: 1, command: put("k", 0) });
        }
        other => panic!("unexpected {:?}", other),
    }
    node.handle_append_ack(&n2, 1, &ack(1, true, 64, 0));
    match node.replication_message("n2", &log) {
        Some(Command::AppendEntries { prev_log_index, prev_log_term, entries, .. }) => {
            assert_eq!((prev_log_index, prev_log_term, entries.len()), (64, 1, 6));
        }
        other => panic!("unexpected {:?}", other),
    }
    // A refusal sends it back.
    let step = node.handle_append_ack(&n2, 1, &ack(1, false, 0, 3));
    assert_eq!(step, AckStep::BackedUp { to: 3 });
    match node.replication_message("n2", &log) {
        Some(Command::AppendEntries { prev_log_index, .. }) => assert_eq!(prev_log_index, 2),
        other => panic!("unexpected {:?}", other),
    }
    let step = node.handle_append_ack(&n2, 1, &ack(1, false, 0, 0));
    assert_eq!(step, AckStep::BackedUp { to: 1 });
}

#[test]
fn stale_and_foreign_answers_are_ignored() {
    let log = empty_log();
    let mut node = leader(&["n2"], &log);
    let n2 = "n2".to_string();
    assert_eq!(node.handle_append_ack(&n2, 1, &Response::Done), AckStep::Ignore);
    assert_eq!(node.handle_append_ack(&n2, 0, &ack(0, true, 5, 0)), AckStep::Ignore);
    assert_eq!(node.handle_append_ack(&n2, 1, &ack(9, false, 0, 0)), AckStep::SteppedDown);
    assert_eq!((node.term(), node.role()), (9, Role::Follower));
    assert_eq!(node.handle_append_ack(&n2, 9, &ack(9, true, 5, 0)), AckStep::Ignore);
    assert!(node.replication_message("n2", &log).is_none(), "only a leader replicates");
}

#[test]
fn peers_are_claimed_and_reported_once() {
    let mut node = node("n1", &["n2"]);
    let n2 = "n2".to_string();
    assert!(node.claim_peer(&n2));
    assert!(!node.claim_peer(&n2), "a round is in flight");
    node.release_peer("n2");
    assert!(node.claim_peer(&n2));
    assert!(!node.peer_reachable("n2"));
    assert!(node.peer_unreachable(&n2));
    assert!(!node.peer_unreachable(&n2));
    assert!(node.peer_reachable("n2"));
    assert_eq!(node.node_id(), "n1");
    assert_eq!(node.peers(), &vec![n2]);
}

#[test]
fn an_append_from_an_old_term_is_refused() {
    let mut node = node("n1", &["n2"]);
    node.adopt_term_if_newer(5);
    let start = node.handle_append_entries(4, "n2".to_string());
    assert_eq!(start.refusal, Some(ack(5, false, 0, 0)));
    assert!(!start.needs_save);
}

#[test]
fn an_append_ends_a_candidacy_and_names_the_leader() {
    let log = empty_log();
    let mut node = node("n1", &["n2"]);
    node.check_timeout(2, 1);
    let term = node.start_election();
    let start = node.handle_append_entries(term, "n2".to_string());
    assert_eq!((start.refusal, start.needs_save, start.local_term), (None, false, 1));
    assert_eq!(node.role(), Role::Follower);
    match node.route(put("a", 1)) {
        Route::Reply(response) => {
            assert_eq!(response, Response::NotLeader { leader: Some("n2".to_string()) });
        }
        _ => panic!("a follower refuses writes"),
    }
    let start = node.handle_append_entries(3, "n3".to_string());
    assert!(start.needs_save);
    assert_eq!(start.local_term, 3);
    let (answer, moved) = node.finish_append_entries(3, Err(WalError::Io), 9, &log);
    assert_eq!((answer, moved), (ack(3, false, 0, 1), None));
}

#[test]
fn a_follower_commits_what_the_leader_says_it_holds() {
    let mut log = empty_log();
    push(&mut log, 1, put("a", 1));
    push(&mut log, 1, put("b", 2));
    let mut node = node("n1", &["n2"]);
    node.handle_append_entries(1, "n2".to_string());
    let accepted = Ok(AppendOutcome::Accepted { match_index: 2 });
    let (answer, moved) = node.finish_append_entries(1, accepted, 1, &log);
    assert_eq!((answer, moved), (ack(1, true, 2, 0), Some(1)));
    assert_eq!(node.key_count(), 1);
    // A commit index past what was sent is cut to it; an older one changes nothing.
    let (_, moved) = node.finish_append_entries(1, accepted, 99, &log);
    assert_eq!(moved, Some(2));
    let (_, moved) = node.finish_append_entries(1, accepted, 1, &log);
    assert_eq!(moved, None);
    let conflict = Ok(AppendOutcome::Conflict { conflict_index: 4 });
    let (answer, moved) = node.finish_append_entries(1, conflict, 99, &log);
    assert_eq!((answer, moved), (ack(1, false, 0, 4), None));
}

#[test]
fn a_restart_replays_the_committed_prefix() {
    let mut log = empty_log();
    push(&mut log, 1, put("a", 1));
    push(&mut log, 1, put("b", 2));
    push(&mut log, 1, put("c", 3));
    let state = RaftState { current_term: 1, voted_for: None, commit_index: 2 };
    let mut node = Node::new("n1".to_string(), Vec::new(), state);
    assert!(!node.restore(&log));
    assert_eq!((node.commit_index(), node.key_count()), (2, 2));

    let state = RaftState { current_term: 1, voted_for: None, commit_index: 9 };
    let mut node = Node::new("n1".to_string(), Vec::new(), state);
    assert!(node.restore(&log), "the log is missing entries it had recorded as committed");
    assert_eq!((node.commit_index(), node.key_count()), (3, 3));
}

#[test]
fn requests_are_routed() {
    let log = empty_log();
    let node = leader(&[], &log);
    assert!(matches!(node.route(put("a", 1)), Route::Write(Command::Put { .. })));
    match node.route(Command::Get { key: "a".to_string() }) {
        Route::Reply(response) => {
            assert_eq!(response, Response::Error("Key not found".to_string()));
        }
        _ => panic!("a read is answered at once"),
    }
    assert!(matches!(node.route(Command::NoOp), Route::Reply(Response::Done)));
    let request = node.vote_request(3, &log);
    assert!(matches!(node.route(request), Route::Vote { term: 3, .. }));
    let message = Command::AppendEntries {
        term: 2,
        leader_id: "n9".to_string(),
        prev_log_index: 1,
        prev_log_term: 1,
        entries: vec![LogEntry { term: 2, index: 2, command: put("x", 1) }],
        leader_commit: 1,
    };
    match node.route(message) {
        Route::Append { entries, leader_id, .. } => {
            assert_eq!(entries.len(), 1);
            assert_eq!(leader_id, "n9");
        }
        _ => panic!("entries go to the log"),
    }
}

#[test]
fn a_client_write_is_answered_honestly() {
    let mut log = empty_log();
    let mut node = leader(&["n2"], &log);
    push(&mut log, 1, Command::NoOp);
    push(&mut log, 1, put("a", 1));
    assert_eq!(node.write_status(&log, 1, 2, 1), WriteStatus::Pending);
    assert_eq!(node.write_status(&log, 2, 2, 1), WriteStatus::Committed);
    node.adopt_term_if_newer(2);
    assert_eq!(node.write_status(&log, 1, 2, 1), WriteStatus::LostLeadership);
    assert_eq!(node.write_status(&log, 2, 2, 1), WriteStatus::Committed, "it is still there");

    // Another leader's entry takes its place.
    log.truncate_from(2, true).unwrap();
    assert_eq!(node.write_status(&log, 2, 2, 1), WriteStatus::LostLeadership);
    push(&mut log, 2, put("b", 2));
    assert_eq!(node.write_status(&log, 2, 2, 1), WriteStatus::LostLeadership);
    assert_eq!(
        node.settle_write(&log, 2, 1),
        Some(write_response(WriteEnd::LostLeadership, 1, 2))
    );

    assert_eq!(write_response(WriteEnd::Committed, 17, 16), Response::Done);
    assert_eq!(
        write_response(WriteEnd::TimedOut, 17, 16),
        Response::Error(
            "index 16 not committed within 2s; this is unknown, not failed — it may still commit"
                .to_string()
        )
    );
    assert_eq!(
        write_response(WriteEnd::LostLeadership, 17, 16),
        Response::Error(
            "lost leadership for term 17 before index 16 committed; \
             the write may or may not survive"
                .to_string()
        )
    );
    assert_eq!(append_failure("disk full"), Response::Error("write failed: disk full".to_string()));
}

#[test]
fn a_follower_commits_no_further_than_it_was_checked() {
    let mut log = empty_log();
    push(&mut log, 1, put("a", 1));
    push(&mut log, 1, put("b", 2));
    let mut node = node("n1", &["n2"]);
    node.handle_append_entries(2, "n2".to_string());
    // An empty message after index 1, while the leader has committed through 2:
    // entry 2 has not been checked.
    let payloads: Vec<Vec<u8>> = Vec::new();
    let outcome = log.try_append(1, 1, &[], &payloads, 0);
    let (answer, moved) = node.finish_append_entries(2, outcome, 2, &log);
    assert_eq!((answer, moved), (ack(2, true, 1, 0), Some(1)));
    assert_eq!((node.commit_index(), node.key_count()), (1, 1));

    // The leader's entry 2 replaces ours, and is then committed.
    let entries = vec![LogEntry { term: 2, index: 2, command: Command::NoOp }];
    let payloads = vec![vec![0u8; 4]];
    let ops = log.plan_append(1, 1, &entries, &payloads);
    let outcome = log.try_append(1, 1, &entries, &payloads, ops.len());
    let (answer, moved) = node.finish_append_entries(2, outcome, 2, &log);
    assert_eq!((answer, moved), (ack(2, true, 2, 0), Some(2)));
    assert_eq!((node.commit_index(), log.term_at(2)), (2, Some(2)));
    assert_eq!(node.key_count(), 1, "what was there before was never applied");
}

#[test]
fn a_node_that_lost_the_lead_counts_nothing() {
    let mut log = empty_log();
    let mut node = leader(&["n2", "n3"], &log);
    push(&mut log, 1, Command::NoOp);
    node.handle_append_ack(&"n2".to_string(), 1, &ack(1, true, 5, 0));
    node.adopt_term_if_newer(2);
    push(&mut log, 2, put("a", 1));
    assert_eq!(node.advance_leader_commit(&log), None);
    assert_eq!(node.commit_index(), 0);
}

#[test]
fn a_campaign_ends_a_leadership() {
    let log = empty_log();
    let mut node = leader(&["n2"], &log);
    assert_eq!(node.start_election(), 2);
    assert_eq!(node.role(), Role::Candidate, "nobody has voted for it in this term");
}
