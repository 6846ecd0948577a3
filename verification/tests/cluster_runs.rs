use kv_store::message::{Command, Response};
use kv_store::node::{count_votes, vote_answer, AckStep, ElectionEnd, Node, Role, Route};
use kv_store::raft_log::RaftLog;
use kv_store::state::RaftState;
use kv_store::wal::Wal;

/// A cluster in memory, whose messages arrive at once or not at all.
struct Cluster {
    nodes: Vec<Node>,
    logs: Vec<RaftLog>,
    up: Vec<bool>,
}

fn name(i: usize) -> String {
    format!("node{}:7878", i)
}

fn put(key: &str, value: u8) -> Command {
    Command::Put { key: key.to_string(), value: vec![value] }
}

impl Cluster {
    fn new(size: usize) -> Cluster {
        let mut cluster = Cluster { nodes: Vec::new(), logs: Vec::new(), up: vec![true; size] };
        for i in 0..size {
            let peers = (0..size).filter(|j| *j != i).map(name).collect();
            cluster.nodes.push(Node::new(name(i), peers, RaftState::default()));
            let (wal, _, _) = Wal::open(format!("wal{}.log", i), &[]).unwrap();
            cluster.logs.push(RaftLog::open(wal, &[], &[]).0);
        }
        cluster
    }

    fn append(&mut self, i: usize, command: Command) -> u64 {
        let term = self.nodes[i].term();
        self.logs[i].append_command(term, command, &[0; 4], true).unwrap()
    }

    fn deliver(&mut self, to: usize, command: Command) -> Option<Response> {
        if !self.up[to] {
            return None;
        }
        match self.nodes[to].route(command) {
            Route::Vote { term, candidate_id, last_log_index, last_log_term } => {
                let reply = self.nodes[to].handle_request_vote(
                    term,
                    candidate_id,
                    last_log_index,
                    last_log_term,
                    &self.logs[to],
                );
                Some(vote_answer(reply, true))
            }
            Route::Append {
                term,
                leader_id,
                prev_log_index,
                prev_log_term,
                entries,
                leader_commit,
            } => {
                let start = self.nodes[to].handle_append_entries(term, leader_id);
                if start.refusal.is_some() {
                    return start.refusal;
                }
                let payloads: Vec<Vec<u8>> = entries.iter().map(|_| vec![0; 4]).collect();
                let ops = self.logs[to].plan_append(
                    prev_log_index,
                    prev_log_term,
                    &entries,
                    &payloads,
                );
                let outcome = self.logs[to].try_append(
                    prev_log_index,
                    prev_log_term,
                    &entries,
                    &payloads,
                    ops.len(),
                );
                let (response, _) = self.nodes[to].finish_append_entries(
                    start.local_term,
                    outcome,
                    leader_commit,
                    &self.logs[to],
                );
                Some(response)
            }
            Route::Reply(response) => Some(response),
            Route::Write(_) => None,
        }
    }

    fn elect(&mut self, i: usize) -> ElectionEnd {
        assert!(self.nodes[i].check_timeout(2, 1));
        let term = self.nodes[i].start_election();
        let request = self.nodes[i].vote_request(term, &self.logs[i]);
        let mut replies = Vec::new();
        for j in 0..self.nodes.len() {
            if j != i {
                replies.push(self.deliver(j, request.clone()));
            }
        }
        let (end, first) =
            self.nodes[i].finish_election(term, count_votes(&replies), &self.logs[i]);
        assert_eq!(first.is_some(), end == ElectionEnd::Won);
        if let Some(first) = first {
            assert_eq!(first, Command::NoOp);
            self.append(i, first);
            self.nodes[i].advance_leader_commit(&self.logs[i]);
        }
        end
    }

    /// One round of replication to every peer. Returns what came of each.
    fn replicate(&mut self, i: usize) -> Vec<AckStep> {
        let mut steps = Vec::new();
        for j in 0..self.nodes.len() {
            if j == i {
                continue;
            }
            let term = self.nodes[i].term();
            let message = match self.nodes[i].replication_message(&name(j), &self.logs[i]) {
                Some(message) => message,
                None => continue,
            };
            if let Some(response) = self.deliver(j, message) {
                let step = self.nodes[i].handle_append_ack(&name(j), term, &response);
                if step == AckStep::Recount {
                    self.nodes[i].advance_leader_commit(&self.logs[i]);
                }
                steps.push(step);
            }
        }
        steps
    }

    fn read(&self, i: usize, key: &str) -> Response {
        match self.nodes[i].route(Command::Get { key: key.to_string() }) {
            Route::Reply(response) => response,
            _ => panic!("a read is answered at once"),
        }
    }

    fn same_log(&self, i: usize, j: usize, upto: u64) -> bool {
        (1..=upto).all(|k| {
            let entry = self.logs[i].entry_at(k);
            entry.is_some() && entry == self.logs[j].entry_at(k)
        })
    }
}

#[test]
fn five_followers_elect_one_leader() {
    let mut cluster = Cluster::new(5);
    assert_eq!(cluster.elect(2), ElectionEnd::Won);
    cluster.replicate(2);
    let leaders = (0..5).filter(|i| cluster.nodes[*i].is_leader()).count();
    assert_eq!(leaders, 1);
    for i in 0..5 {
        assert_eq!(cluster.nodes[i].term(), 1);
        assert_eq!(cluster.nodes[i].snapshot().voted_for, Some(name(2)));
    }
}

#[test]
fn an_acknowledged_write_survives_the_leader() {
    let mut cluster = Cluster::new(3);
    cluster.elect(0);
    cluster.up[2] = false;
    let index = cluster.append(0, put("a", 7));
    cluster.replicate(0);
    assert_eq!(cluster.nodes[0].commit_index(), index, "two of three hold it");
    assert_eq!(cluster.read(0, "a"), Response::Value(Some(vec![7])));

    // The leader dies; the node that never saw the write comes back.
    cluster.up[0] = false;
    cluster.up[2] = true;
    assert_eq!(cluster.elect(2), ElectionEnd::Lost, "its log is behind");
    assert_eq!(cluster.elect(1), ElectionEnd::Won);
    cluster.replicate(1);
    cluster.replicate(1);
    assert_eq!(cluster.read(1, "a"), Response::Value(Some(vec![7])));
    assert!(cluster.same_log(0, 1, index));
    assert!(cluster.same_log(1, 2, cluster.logs[1].last_index()));
}

#[test]
fn a_minority_cannot_elect_and_keeps_retrying() {
    let mut cluster = Cluster::new(5);
    cluster.up = vec![true, true, false, false, false];
    assert_eq!(cluster.elect(0), ElectionEnd::Lost);
    assert_eq!(cluster.elect(1), ElectionEnd::Lost);
    assert_eq!(cluster.elect(0), ElectionEnd::Lost);
    assert_eq!(cluster.nodes[0].term(), 3, "the term climbs");
    cluster.up[2] = true;
    assert_eq!(cluster.elect(0), ElectionEnd::Won);
}

#[test]
fn a_cut_off_leaders_write_is_rolled_back() {
    let mut cluster = Cluster::new(5);
    cluster.elect(0);
    cluster.append(0, put("kept", 1));
    cluster.replicate(0);
    cluster.replicate(0);
    let committed = cluster.nodes[0].commit_index();
    assert_eq!(committed, 2);

    // Node 0 is cut off and handed a write, which it cannot commit.
    let lost = cluster.append(0, put("lost", 2));
    assert_eq!(cluster.nodes[0].advance_leader_commit(&cluster.logs[0]), None);

    cluster.up[0] = false;
    assert_eq!(cluster.elect(1), ElectionEnd::Won);
    cluster.append(1, put("won", 3));
    cluster.replicate(1);
    assert_eq!(cluster.nodes[1].commit_index(), 4);

    // Reconnected, it steps down and drops what was never promised.
    cluster.up[0] = true;
    assert!(cluster.nodes[0].is_leader());
    for _ in 0..3 {
        cluster.replicate(1);
    }
    assert_eq!(cluster.nodes[0].role(), Role::Follower);
    assert_eq!(cluster.nodes[0].term(), 2);
    assert_eq!(cluster.logs[0].term_at(lost), Some(2));
    assert!(cluster.same_log(0, 1, 4));
    assert_eq!(cluster.nodes[0].commit_index(), 4);
    assert_eq!(cluster.nodes[0].key_count(), 2);
    assert_eq!(cluster.read(0, "lost"), Response::NotLeader { leader: Some(name(1)) });
    assert_eq!(cluster.read(1, "lost"), Response::Error("Key not found".to_string()));
}

#[test]
fn a_node_that_was_down_catches_up_in_batches() {
    let mut cluster = Cluster::new(3);
    cluster.elect(0);
    cluster.up[2] = false;
    for i in 0..150u8 {
        cluster.append(0, put("k", i));
    }
    for _ in 0..4 {
        cluster.replicate(0);
    }
    assert_eq!(cluster.nodes[0].commit_index(), 151);

    cluster.up[2] = true;
    let mut lengths = Vec::new();
    for _ in 0..3 {
        cluster.replicate(0);
        lengths.push(cluster.logs[2].last_index());
    }
    assert_eq!(lengths, vec![64, 128, 151]);
    assert!(cluster.same_log(0, 2, 151));
    assert_eq!(cluster.nodes[2].commit_index(), 151);
}

#[test]
fn a_follower_with_another_term_is_backed_up_at_once() {
    let mut cluster = Cluster::new(3);
    cluster.elect(0);
    cluster.replicate(0);
    // Node 2 leads term 2 for a moment and writes on its own.
    cluster.up[0] = false;
    cluster.elect(2);
    for i in 0..5u8 {
        cluster.append(2, put("own", i));
    }
    cluster.up = vec![true, true, false];
    cluster.nodes[0].adopt_term_if_newer(2);
    assert_eq!(cluster.elect(0), ElectionEnd::Won);
    for i in 0..9u8 {
        cluster.append(0, put("k", i));
    }
    cluster.replicate(0);

    cluster.up = vec![true, false, true];
    assert_eq!(cluster.logs[2].last_index(), 7);
    // The first guess is that it has what node 0 had when it was elected.
    let steps = cluster.replicate(0);
    assert_eq!(steps, vec![AckStep::Recount]);
    assert!(cluster.same_log(0, 2, cluster.logs[0].last_index()));
}

#[test]
fn one_node_is_a_cluster() {
    let mut cluster = Cluster::new(1);
    assert_eq!(cluster.elect(0), ElectionEnd::Won);
    assert_eq!(cluster.nodes[0].commit_index(), 1, "the no-op commits at once");
    cluster.append(0, put("a", 1));
    assert_eq!(cluster.nodes[0].advance_leader_commit(&cluster.logs[0]), Some(2));
    assert_eq!(cluster.read(0, "a"), Response::Value(Some(vec![1])));
}

#[test]
fn a_late_win_is_discarded() {
    let mut cluster = Cluster::new(3);
    assert!(cluster.nodes[0].check_timeout(2, 1));
    let term = cluster.nodes[0].start_election();
    let request = cluster.nodes[0].vote_request(term, &cluster.logs[0]);
    let replies = vec![cluster.deliver(1, request.clone()), cluster.deliver(2, request)];
    // Before the votes are counted, another node starts a newer term.
    cluster.nodes[1].adopt_term_if_newer(4);
    cluster.nodes[1].check_timeout(2, 1);
    let newer = cluster.nodes[1].start_election();
    let request = cluster.nodes[1].vote_request(newer, &cluster.logs[1]);
    cluster.deliver(0, request);
    let votes = count_votes(&replies);
    assert_eq!(votes, 3);
    assert_eq!(
        cluster.nodes[0].finish_election(term, votes, &cluster.logs[0]),
        (ElectionEnd::Stale, None)
    );
    assert!(!cluster.nodes[0].is_leader());
}

/// Three nodes; node 0 leads term 1 and has written `first` and a tail that nobody
/// else holds. Node 1 then leads term 2 and has committed past that tail.
fn deposed_leader(tail: u8) -> (Cluster, u64) {
    let mut cluster = Cluster::new(3);
    cluster.elect(0);
    let first = cluster.append(0, put("first", 1));
    cluster.replicate(0);
    cluster.replicate(0);
    let mut last = first;
    for i in 0..tail {
        last = cluster.append(0, put("tail", i));
    }
    cluster.up[0] = false;
    assert_eq!(cluster.elect(1), ElectionEnd::Won);
    for i in 0..tail + 2 {
        cluster.append(1, put("won", i));
    }
    cluster.replicate(1);
    cluster.replicate(1);
    assert!(cluster.nodes[1].commit_index() > last);
    cluster.up[0] = true;
    (cluster, last)
}

#[test]
fn an_unchecked_tail_is_never_committed() {
    let (mut cluster, last) = deposed_leader(3);
    // A message that ends before the tail, with a commit index past it.
    let message = Command::AppendEntries {
        term: 2,
        leader_id: name(1),
        prev_log_index: 1,
        prev_log_term: 1,
        entries: vec![],
        leader_commit: cluster.nodes[1].commit_index(),
    };
    let before = cluster.nodes[0].commit_index();
    assert_eq!(before, 2);
    cluster.deliver(0, message);
    assert_eq!(cluster.nodes[0].commit_index(), before, "the tail was not checked");
    assert_eq!(cluster.logs[0].term_at(last), Some(1), "nor was it touched");

    for _ in 0..4 {
        cluster.replicate(1);
        let commit = cluster.nodes[0].commit_index();
        assert!(cluster.same_log(0, 1, commit), "what is committed is the leader's");
    }
    assert_eq!(cluster.nodes[0].commit_index(), cluster.nodes[1].commit_index());
    assert_eq!(cluster.nodes[0].key_count(), cluster.nodes[1].key_count());
}

#[test]
fn a_replaced_write_is_never_acknowledged() {
    let (mut cluster, last) = deposed_leader(1);
    assert_eq!(cluster.nodes[0].settle_write(&cluster.logs[0], last, 1), None, "still waiting");
    for _ in 0..4 {
        cluster.replicate(1);
        let answer = cluster.nodes[0].settle_write(&cluster.logs[0], last, 1);
        assert!(matches!(answer, None | Some(Response::Error(_))), "{:?}", answer);
    }
    assert!(cluster.nodes[0].commit_index() >= last);
    assert_eq!(cluster.logs[0].term_at(last), Some(2), "another leader's entry is there");
    assert_eq!(
        cluster.nodes[0].settle_write(&cluster.logs[0], last, 1),
        Some(Response::Error(format!(
            "lost leadership for term 1 before index {} committed; \
             the write may or may not survive",
            last
        )))
    );
}

#[test]
fn an_acknowledged_write_is_in_every_later_leaders_log() {
    let mut cluster = Cluster::new(3);
    cluster.elect(0);
    let index = cluster.append(0, put("a", 7));
    assert_eq!(cluster.nodes[0].settle_write(&cluster.logs[0], index, 1), None);
    cluster.replicate(0);
    let answer = cluster.nodes[0].settle_write(&cluster.logs[0], index, 1);
    assert_eq!(answer, Some(Response::Done));
    let entry = cluster.logs[0].entry_at(index).unwrap().clone();
    for next in [1, 2, 1] {
        cluster.up = vec![false, true, true];
        assert_eq!(cluster.elect(next), ElectionEnd::Won);
        cluster.replicate(next);
        cluster.replicate(next);
        assert_eq!(cluster.logs[next].entry_at(index), Some(&entry));
    }
}
