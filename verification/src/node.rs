//! One node of the cluster: elections, replication and commit.
//!
//! A [`Node`] holds what a node knows and decides; it performs nothing. Its
//! methods are called with what happened (a message, a reply, a timer) and say
//! what to do next: what to answer, what to send, what to persist first. The log
//! is a value of its own, because changing it means disk access.

use crate::kv::{replayed_onto, KvStore};
use crate::message::{
    entries_view,
    Command,
    CommandView,
    LogEntry,
    LogEntryView,
    Response,
    ResponseView,
};
use crate::quorum::{is_reached_by, kth_largest, majority_of, reached_by};
use crate::raft_log::{
    at_least_as_up_to_date,
    last_term,
    log_is_up_to_date,
    term_at,
    AppendOutcome,
    RaftLog,
};
use crate::state::{text_view, RaftState, RaftStateView};
use crate::text::{decimal, decimal_text};
use crate::wal::WalError;
use vstd::hash_map::StringHashMap;
use vstd::hash_set::StringHashSet;
use vstd::prelude::*;
use vstd::string::StringExecFns;

verus! {

/// Entries per `AppendEntries`. Caps how much a badly lagging follower can pull
/// in one round trip, so catching up is incremental rather than one huge frame.
pub const MAX_ENTRIES_PER_APPEND: usize = 64;

/// The shortest election timeout, in milliseconds.
pub const ELECTION_TIMEOUT_MIN_MS: u64 = 500;

/// The election timeouts are shorter than this, in milliseconds.
pub const ELECTION_TIMEOUT_END_MS: u64 = 1000;

#[derive(Debug, Clone, Copy, PartialEq, Eq, Structural)]
pub enum Role {
    Follower,
    Candidate,
    Leader,
}

/// Everything one node is and knows, apart from its log.
pub struct Node {
    node_id: String,
    peers: Vec<String>,
    store: KvStore,
    /// Term, vote and commit index: the state that survives a crash.
    state: RaftState,
    role: Role,
    /// Who we last accepted an `AppendEntries` from, so a follower can redirect
    /// a client instead of just refusing it.
    leader_id: Option<String>,
    /// Highest log index handed to the state machine.
    last_applied: u64,
    /// Leader-only, rebuilt on every election win.
    next_index: StringHashMap<u64>,
    match_index: StringHashMap<u64>,
    /// Peers with an `AppendEntries` in flight, so a slow peer doesn't collect a
    /// pile-up of overlapping requests carrying stale `next_index` values.
    replicating: StringHashSet,
    /// Peers already reported as unreachable. A leader retries forever, so
    /// without this a single dead peer buries the log.
    unreachable: StringHashSet,
}

/// A node as a mathematical value.
#[verifier::ext_equal]
pub struct NodeView {
    pub node_id: Seq<char>,
    pub peers: Seq<Seq<char>>,
    pub db: Map<Seq<char>, Seq<u8>>,
    pub state: RaftStateView,
    pub role: Role,
    pub leader_id: Option<Seq<char>>,
    pub last_applied: u64,
    pub next_index: Map<Seq<char>, u64>,
    pub match_index: Map<Seq<char>, u64>,
    pub replicating: Set<Seq<char>>,
    pub unreachable: Set<Seq<char>>,
}

/// Texts as mathematical values.
pub open spec fn texts_view(texts: Seq<String>) -> Seq<Seq<char>> {
    texts.map_values(|t: String| t@)
}

/// What `map` holds for `key`, or `default`.
pub open spec fn get_or(map: Map<Seq<char>, u64>, key: Seq<char>, default: u64) -> u64 {
    if map.contains_key(key) {
        map[key]
    } else {
        default
    }
}

/// The smaller of the two.
pub open spec fn min(a: int, b: int) -> int {
    if a < b {
        a
    } else {
        b
    }
}

/// A map with `value` for every one of `keys`.
pub open spec fn all_to(keys: Seq<Seq<char>>, value: u64) -> Map<Seq<char>, u64> {
    Map::new(|k: Seq<char>| keys.contains(k), |k: Seq<char>| value)
}

/// The highest index each copy of the log holds: what each peer has acknowledged,
/// and then the leader's own last index.
pub open spec fn copies(
    peers: Seq<Seq<char>>,
    match_index: Map<Seq<char>, u64>,
    last_index: u64,
) -> Seq<u64> {
    peers.map_values(|p: Seq<char>| get_or(match_index, p, 0)).push(last_index)
}

/// A node that has just started, with the state it had persisted.
pub open spec fn started(
    node_id: Seq<char>,
    peers: Seq<Seq<char>>,
    state: RaftStateView,
) -> NodeView {
    NodeView {
        node_id,
        peers,
        db: Map::empty(),
        state,
        role: Role::Follower,
        leader_id: None,
        last_applied: 0,
        next_index: Map::empty(),
        match_index: Map::empty(),
        replicating: Set::empty(),
        unreachable: Set::empty(),
    }
}

/// What came of a vote request.
pub struct VoteDecision {
    pub granted: bool,
    /// The state changed and must be persisted before the answer goes out.
    pub needs_save: bool,
}

impl NodeView {
    /// The node after a message that carries `term`: a newer term is adopted,
    /// which clears the vote, because votes are per term, and ends any candidacy
    /// or leadership.
    pub open spec fn adopting(self, term: u64) -> NodeView {
        if term > self.state.current_term {
            NodeView {
                state: RaftStateView { current_term: term, voted_for: None, ..self.state },
                role: Role::Follower,
                ..self
            }
        } else {
            self
        }
    }

    /// Whether a vote is granted: the candidate's term is current, this term is
    /// not promised to someone else, and the candidate's log is at least as
    /// complete as ours.
    pub open spec fn grants(
        self,
        candidate: Seq<char>,
        term: u64,
        candidate_last: (u64, u64),
        our_last: (u64, u64),
    ) -> bool {
        let node = self.adopting(term);
        &&& term == node.state.current_term
        &&& at_least_as_up_to_date(candidate_last.0, candidate_last.1, our_last.0, our_last.1)
        &&& node.state.voted_for is None || node.state.voted_for == Some(candidate)
    }

    /// The node after a vote request.
    pub open spec fn voting(
        self,
        candidate: Seq<char>,
        term: u64,
        candidate_last: (u64, u64),
        our_last: (u64, u64),
    ) -> NodeView {
        let node = self.adopting(term);
        if self.grants(candidate, term, candidate_last, our_last) {
            NodeView {
                state: RaftStateView { voted_for: Some(candidate), ..node.state },
                ..node
            }
        } else {
            node
        }
    }

    /// Whether a vote request is granted by a node whose log is `log`.
    pub open spec fn grants_request(
        self,
        candidate: Seq<char>,
        term: u64,
        last_log_index: u64,
        last_log_term: u64,
        log: Seq<LogEntryView>,
    ) -> bool {
        self.grants(
            candidate,
            term,
            (last_log_term, last_log_index),
            (last_term(log), log.len() as u64),
        )
    }

    /// The node after such a request.
    pub open spec fn after_request(
        self,
        candidate: Seq<char>,
        term: u64,
        last_log_index: u64,
        last_log_term: u64,
        log: Seq<LogEntryView>,
    ) -> NodeView {
        self.voting(
            candidate,
            term,
            (last_log_term, last_log_index),
            (last_term(log), log.len() as u64),
        )
    }

    /// The node once every committed entry that is in the log has been applied.
    pub open spec fn applying(self, log: Seq<LogEntryView>) -> NodeView {
        let target = min(self.state.commit_index as int, log.len() as int);
        if self.last_applied < target {
            NodeView {
                db: replayed_onto(self.db, log.subrange(self.last_applied as int, target)),
                last_applied: target as u64,
                ..self
            }
        } else {
            self
        }
    }

    /// The node once it has learnt that everything up to `new_commit` is
    /// committed.
    pub open spec fn committing(self, new_commit: u64, log: Seq<LogEntryView>) -> NodeView {
        let target = min(new_commit as int, log.len() as int);
        if target <= self.state.commit_index {
            self
        } else {
            NodeView {
                state: RaftStateView { commit_index: target as u64, ..self.state },
                ..self
            }.applying(log)
        }
    }

    /// The node after its log, now `log`, made that of an `AppendEntries`: it commits
    /// what its leader has committed, as far as the two logs are known to agree.
    pub open spec fn finishing(
        self,
        outcome: Result<AppendOutcome, WalError>,
        leader_commit: u64,
        log: Seq<LogEntryView>,
    ) -> NodeView {
        match outcome {
            Ok(AppendOutcome::Accepted { match_index }) => self.committing(
                min(leader_commit as int, match_index as int) as u64,
                log,
            ),
            _ => self,
        }
    }

    /// The highest index that a majority of the cluster holds.
    pub open spec fn majority_index(self, log: Seq<LogEntryView>) -> u64 {
        reached_by(
            copies(self.peers, self.match_index, log.len() as u64),
            majority_of(self.peers.len()),
        )
    }

    /// The node after the leader's commit rule; a node that does not lead has nothing
    /// to count, since what its peers acknowledged was another term's log. An entry from an earlier term can
    /// be present on a majority and still not be committed, so counting copies
    /// alone could commit something a future leader overwrites.
    pub open spec fn counting(self, log: Seq<LogEntryView>) -> NodeView {
        let index = self.majority_index(log);
        if self.role == Role::Leader && index > self.state.commit_index && term_at(
            log,
            index as int,
        ) == Some(self.state.current_term) {
            self.committing(index, log)
        } else {
            self
        }
    }

    /// The node as a fresh leader.
    pub open spec fn leading(self, last_index: int) -> NodeView {
        NodeView {
            role: Role::Leader,
            leader_id: Some(self.node_id),
            next_index: all_to(self.peers, (last_index + 1) as u64),
            match_index: all_to(self.peers, 0),
            ..self
        }
    }

    /// The candidate that has just voted for itself in the next term.
    pub open spec fn campaigning(self) -> NodeView {
        NodeView {
            role: Role::Candidate,
            state: RaftStateView {
                current_term: (self.state.current_term + 1) as u64,
                voted_for: Some(self.node_id),
                ..self.state
            },
            ..self
        }
    }

    /// The node after an `AppendEntries` of a term that is not stale.
    pub open spec fn following(self, term: u64, leader: Seq<char>) -> NodeView {
        let node = self.adopting(term);
        NodeView {
            role: if node.role == Role::Candidate {
                Role::Follower
            } else {
                node.role
            },
            leader_id: Some(leader),
            ..node
        }
    }

    /// The message that brings `peer` up to date, or an empty one as a heartbeat
    /// if it is.
    pub open spec fn append_message(self, peer: Seq<char>, log: Seq<LogEntryView>) -> CommandView {
        let next = get_or(self.next_index, peer, 1);
        let prev = if next > 0 {
            next - 1
        } else {
            0
        };
        CommandView::AppendEntries {
            term: self.state.current_term,
            leader_id: self.node_id,
            prev_log_index: prev as u64,
            prev_log_term: match term_at(log, prev) {
                Some(term) => term,
                None => 0,
            },
            entries: if next == 0 || next > log.len() {
                Seq::empty()
            } else {
                log.subrange(prev, min(prev + MAX_ENTRIES_PER_APPEND, log.len() as int))
            },
            leader_commit: self.state.commit_index,
        }
    }

    /// The message for a round of replication to `peer`, which only a leader has.
    pub open spec fn message_for(self, peer: Seq<char>, log: Seq<LogEntryView>) -> Option<
        CommandView,
    > {
        if self.role == Role::Leader {
            Some(self.append_message(peer, log))
        } else {
            None
        }
    }

    /// The candidate once its own vote has been persisted, or a follower again if it
    /// could not be.
    pub open spec fn asking(self, saved: bool) -> NodeView {
        if saved {
            self
        } else {
            NodeView { role: Role::Follower, ..self }
        }
    }

    /// The node after a peer took everything up to `match_index`. A cursor never
    /// moves backwards on a reordered or duplicated acknowledgement.
    pub open spec fn acknowledged(self, peer: Seq<char>, match_index: u64) -> NodeView {
        if match_index > get_or(self.match_index, peer, 0) {
            NodeView {
                match_index: self.match_index.insert(peer, match_index),
                next_index: self.next_index.insert(peer, (match_index + 1) as u64),
                ..self
            }
        } else {
            self
        }
    }

    /// Whether no round of replication to `peer` is in flight.
    pub open spec fn is_free(self, peer: Seq<char>) -> bool {
        !self.replicating.contains(peer)
    }

    /// The node once a round of replication to `peer` is in flight.
    pub open spec fn claiming(self, peer: Seq<char>) -> NodeView {
        NodeView { replicating: self.replicating.insert(peer), ..self }
    }

    /// The node once no round of replication to `peer` is in flight.
    pub open spec fn releasing(self, peer: Seq<char>) -> NodeView {
        NodeView { replicating: self.replicating.remove(peer), ..self }
    }

    /// Whether `peer` was last noted as unreachable.
    pub open spec fn is_silent(self, peer: Seq<char>) -> bool {
        self.unreachable.contains(peer)
    }

    /// The node once `peer` is noted as unreachable.
    pub open spec fn missing(self, peer: Seq<char>) -> NodeView {
        NodeView { unreachable: self.unreachable.insert(peer), ..self }
    }

    /// The node once `peer` is noted as reachable.
    pub open spec fn reaching(self, peer: Seq<char>) -> NodeView {
        NodeView { unreachable: self.unreachable.remove(peer), ..self }
    }

    /// Whether the watchdog fires: a follower has heard nothing for longer than its
    /// election timeout.
    pub open spec fn times_out(self, elapsed: u128, timeout: u128) -> bool {
        self.role == Role::Follower && elapsed > timeout
    }

    /// The node after the watchdog has looked at the timer.
    pub open spec fn waiting(self, elapsed: u128, timeout: u128) -> NodeView {
        if self.times_out(elapsed, timeout) {
            NodeView { role: Role::Candidate, ..self }
        } else {
            self
        }
    }

    /// The vote request of an election for `term`.
    pub open spec fn vote_request(self, term: u64, log: Seq<LogEntryView>) -> CommandView {
        CommandView::RequestVote {
            term,
            candidate_id: self.node_id,
            last_log_index: log.len() as u64,
            last_log_term: last_term(log),
        }
    }

    /// How an election for `term` that brought `votes` votes ends.
    pub open spec fn election_end(self, term: u64, votes: u64) -> ElectionEnd {
        if votes < majority_of(self.peers.len()) {
            ElectionEnd::Lost
        } else if self.state.current_term == term {
            ElectionEnd::Won
        } else {
            ElectionEnd::Stale
        }
    }

    /// The node after that election.
    pub open spec fn elected(self, term: u64, votes: u64, last_index: int) -> NodeView {
        match self.election_end(term, votes) {
            ElectionEnd::Won => self.leading(last_index),
            ElectionEnd::Stale => self,
            ElectionEnd::Lost => NodeView { role: Role::Follower, ..self },
        }
    }

    /// The node after a start from `log`: the commit index is clamped to it, and what
    /// is committed is applied.
    pub open spec fn restoring(self, log: Seq<LogEntryView>) -> NodeView {
        NodeView {
            state: RaftStateView {
                commit_index: min(self.state.commit_index as int, log.len() as int) as u64,
                ..self.state
            },
            ..self
        }.applying(log)
    }

    /// The refusal of an `AppendEntries` of `term`, if it is stale.
    pub open spec fn append_refusal(self, term: u64) -> Option<ResponseView> {
        if term < self.state.current_term {
            Some(
                ResponseView::AppendEntriesAck {
                    term: self.state.current_term,
                    success: false,
                    match_index: 0,
                    conflict_index: 0,
                },
            )
        } else {
            None
        }
    }

    /// The node once an `AppendEntries` of `term` from `leader` has come in.
    pub open spec fn hearing(self, term: u64, leader: Seq<char>) -> NodeView {
        if term < self.state.current_term {
            self
        } else {
            self.following(term, leader)
        }
    }

    /// What the answer of `peer` to a message of `sent_term` leads to.
    pub open spec fn ack_step(self, sent_term: u64, response: ResponseView) -> AckStep {
        match response {
            ResponseView::AppendEntriesAck { term, success, conflict_index, .. } => {
                if term > self.state.current_term {
                    AckStep::SteppedDown
                } else if self.role != Role::Leader || self.state.current_term != sent_term {
                    AckStep::Ignore
                } else if success {
                    AckStep::Recount
                } else if conflict_index > 1 {
                    AckStep::BackedUp { to: conflict_index }
                } else {
                    AckStep::BackedUp { to: 1 }
                }
            },
            _ => AckStep::Ignore,
        }
    }

    /// The node after that answer.
    pub open spec fn answered(
        self,
        peer: Seq<char>,
        sent_term: u64,
        response: ResponseView,
    ) -> NodeView {
        match response {
            ResponseView::AppendEntriesAck { term, success, match_index, conflict_index } => {
                if term > self.state.current_term {
                    self.adopting(term)
                } else if self.role != Role::Leader || self.state.current_term != sent_term {
                    self
                } else if success {
                    self.acknowledged(peer, match_index)
                } else {
                    self.backing_up(peer, conflict_index)
                }
            },
            _ => self,
        }
    }

    /// The node after a peer refused entries.
    pub open spec fn backing_up(self, peer: Seq<char>, conflict_index: u64) -> NodeView {
        NodeView {
            next_index: self.next_index.insert(
                peer,
                if conflict_index > 1 {
                    conflict_index
                } else {
                    1
                },
            ),
            ..self
        }
    }
}

impl View for Node {
    type V = NodeView;

    closed spec fn view(&self) -> NodeView {
        NodeView {
            node_id: self.node_id@,
            peers: texts_view(self.peers@),
            db: self.store@,
            state: self.state@,
            role: self.role,
            leader_id: text_view(self.leader_id),
            last_applied: self.last_applied,
            next_index: self.next_index@,
            match_index: self.match_index@,
            replicating: self.replicating@,
            unreachable: self.unreachable@,
        }
    }
}

impl Node {
    /// A node that has just started: a follower that has applied nothing, with
    /// the state it had persisted.
    pub fn new(node_id: String, peers: Vec<String>, state: RaftState) -> (node: Node)
        ensures
            node@ == started(node_id@, texts_view(peers@), state@),
    {
        Node {
            node_id,
            peers,
            store: KvStore::new(),
            state,
            role: Role::Follower,
            leader_id: None,
            last_applied: 0,
            next_index: StringHashMap::new(),
            match_index: StringHashMap::new(),
            replicating: StringHashSet::new(),
            unreachable: StringHashSet::new(),
        }
    }

    pub fn node_id(&self) -> (id: &str)
        ensures
            id@ == self@.node_id,
    {
        self.node_id.as_str()
    }

    pub fn peers(&self) -> (peers: &Vec<String>)
        ensures
            texts_view(peers@) == self@.peers,
    {
        &self.peers
    }

    pub fn term(&self) -> (term: u64)
        ensures
            term == self@.state.current_term,
    {
        self.state.current_term
    }

    pub fn commit_index(&self) -> (index: u64)
        ensures
            index == self@.state.commit_index,
    {
        self.state.commit_index
    }

    pub fn role(&self) -> (role: Role)
        ensures
            role == self@.role,
    {
        self.role
    }

    pub fn is_leader(&self) -> (leads: bool)
        ensures
            leads == (self@.role == Role::Leader),
    {
        self.role == Role::Leader
    }

    /// The number of keys in the state machine.
    pub fn key_count(&self) -> (n: usize)
        ensures
            n == self@.db.len(),
            self@.db.dom().finite(),
    {
        self.store.len()
    }

    /// The state as it is now, to be persisted.
    pub fn snapshot(&self) -> (state: RaftState)
        ensures
            state@ == self@.state,
    {
        RaftState {
            current_term: self.state.current_term,
            voted_for: self.state.voted_for.clone(),
            commit_index: self.state.commit_index,
        }
    }

    /// How many votes (or copies) make a majority of the whole cluster.
    pub fn majority(&self) -> (n: usize)
        ensures
            n == majority_of(self@.peers.len()),
    {
        let peers: usize = self.peers.len();
        peers / 2 + peers % 2 + 1
    }

    /// Adopts `incoming_term` and steps down to `Follower` if it's newer than the
    /// locally known term. Returns whether it was adopted. This is the only way a
    /// stale candidate or leader learns it's behind, whether via a vote request,
    /// an `AppendEntries`, or an acknowledgement.
    ///
    /// The state must be persisted when this returns true, before acting on the
    /// change.
    pub fn adopt_term_if_newer(&mut self, incoming_term: u64) -> (adopted: bool)
        ensures
            final(self)@ == old(self)@.adopting(incoming_term),
            adopted == (incoming_term > old(self)@.state.current_term),
    {
        if incoming_term > self.state.current_term {
            self.state.current_term = incoming_term;
            self.state.voted_for = None;
            self.role = Role::Follower;
            true
        } else {
            false
        }
    }

    /// Decides a vote request and records the vote.
    ///
    /// Grant when the candidate's term is current, we haven't already promised
    /// this term to someone else, and the candidate's log is at least as complete
    /// as ours. That last check is the election restriction: without it a node
    /// missing committed entries could win and overwrite them, which would make
    /// an acknowledged write a lie.
    pub fn decide_vote(
        &mut self,
        candidate_id: &String,
        candidate_term: u64,
        candidate_last_term: u64,
        candidate_last_index: u64,
        our_last_term: u64,
        our_last_index: u64,
    ) -> (decision: VoteDecision)
        ensures
            final(self)@ == old(self)@.voting(
                candidate_id@,
                candidate_term,
                (candidate_last_term, candidate_last_index),
                (our_last_term, our_last_index),
            ),
            decision.granted == old(self)@.grants(
                candidate_id@,
                candidate_term,
                (candidate_last_term, candidate_last_index),
                (our_last_term, our_last_index),
            ),
            decision.needs_save == must_save(false, old(self)@.state, final(self)@.state),
    {
        let adopted = self.adopt_term_if_newer(candidate_term);
        if candidate_term != self.state.current_term {
            return VoteDecision { granted: false, needs_save: adopted };
        }
        if !log_is_up_to_date(
            candidate_last_term,
            candidate_last_index,
            our_last_term,
            our_last_index,
        ) {
            return VoteDecision { granted: false, needs_save: adopted };
        }
        let promised_elsewhere = match &self.state.voted_for {
            None => false,
            // A retried request from the same candidate must not lose the vote.
            Some(already) => if *already == *candidate_id {
                return VoteDecision { granted: true, needs_save: adopted };
            } else {
                true
            },
        };
        if promised_elsewhere {
            return VoteDecision { granted: false, needs_save: adopted };
        }
        self.state.voted_for = Some(candidate_id.clone());
        VoteDecision { granted: true, needs_save: true }
    }

    /// Hands every newly committed entry to the state machine, in order.
    pub fn apply_committed(&mut self, log: &RaftLog)
        requires
            log.wf(),
        ensures
            final(self)@ == old(self)@.applying(log@),
    {
        let ghost start = self@;
        let commit: u64 = self.state.commit_index;
        while self.last_applied < commit && self.last_applied < log.last_index()
            invariant
                log.wf(),
                start == old(self)@,
                commit == start.state.commit_index,
                start.last_applied <= self.last_applied,
                self.last_applied > start.last_applied ==> self.last_applied <= commit
                    && self.last_applied <= log@.len(),
                self@ == (if self.last_applied == start.last_applied {
                    start
                } else {
                    NodeView {
                        db: replayed_onto(
                            start.db,
                            log@.subrange(start.last_applied as int, self.last_applied as int),
                        ),
                        last_applied: self.last_applied,
                        ..start
                    }
                }),
            decreases commit - self.last_applied,
        {
            let next: u64 = self.last_applied + 1;
            match log.entry_at(next) {
                Some(entry) => {
                    proof {
                        let a = start.last_applied as int;
                        assert(log@.subrange(a, next as int).drop_last() =~= log@.subrange(
                            a,
                            self.last_applied as int,
                        ));
                        assert(log@.subrange(a, next as int).last() == log@[next - 1]);
                    }
                    self.store.apply(&entry.command);
                    self.last_applied = next;
                },
                None => {},
            }
        }
    }

    /// Moves the commit index forward and applies what that newly commits. If it
    /// moved, the new commit index is returned: the state should be persisted,
    /// and any client waiting for an index up to it can be answered.
    pub fn advance_commit_to(&mut self, new_commit: u64, log: &RaftLog) -> (moved: Option<u64>)
        requires
            log.wf(),
        ensures
            final(self)@ == old(self)@.committing(new_commit, log@),
            moved == newly_committed(
                old(self)@.state.commit_index,
                final(self)@.state.commit_index,
            ),
    {
        let last: u64 = log.last_index();
        let target: u64 = if new_commit < last {
            new_commit
        } else {
            last
        };
        if target <= self.state.commit_index {
            return None;
        }
        self.state.commit_index = target;
        self.apply_committed(log);
        Some(target)
    }

    /// The leader's commit rule: the highest index stored on a majority, if its
    /// entry is of the current term. It does nothing on a node that has lost the
    /// lead. Returns the new commit index if it moved.
    pub fn advance_leader_commit(&mut self, log: &RaftLog) -> (moved: Option<u64>)
        requires
            log.wf(),
        ensures
            final(self)@ == old(self)@.counting(log@),
            is_reached_by(
                copies(old(self)@.peers, old(self)@.match_index, log@.len() as u64),
                majority_of(old(self)@.peers.len()),
                old(self)@.majority_index(log@),
            ),
            moved == newly_committed(
                old(self)@.state.commit_index,
                final(self)@.state.commit_index,
            ),
    {
        let mut replicated: Vec<u64> = Vec::new();
        let ghost peers = self@.peers;
        let mut i: usize = 0;
        while i < self.peers.len()
            invariant
                i <= self.peers@.len(),
                peers == self@.peers,
                replicated@ == peers.take(i as int).map_values(
                    |p: Seq<char>| get_or(self@.match_index, p, 0),
                ),
            decreases self.peers@.len() - i,
        {
            let held: u64 = match self.match_index.get(self.peers[i].as_str()) {
                Some(index) => *index,
                None => 0,
            };
            replicated.push(held);
            proof {
                assert(peers[i as int] == self.peers@[i as int]@);
                assert(replicated@ =~= peers.take(i + 1).map_values(
                    |p: Seq<char>| get_or(self@.match_index, p, 0),
                ));
            }
            i += 1;
        }
        // The leader holds its own entries.
        replicated.push(log.last_index());
        proof {
            assert(peers.take(i as int) =~= peers);
            assert(replicated@ =~= copies(peers, self@.match_index, log@.len() as u64));
        }
        let candidate: u64 = kth_largest(replicated.as_slice(), self.majority());
        if self.is_leader() && candidate > self.state.commit_index {
            if let Some(term) = log.term_at(candidate) {
                if term == self.state.current_term {
                    return self.advance_commit_to(candidate, log);
                }
            }
        }
        None
    }

    /// Takes leadership, resetting the per-peer replication cursors, and returns
    /// the command that the leader must append first.
    ///
    /// A fresh leader may hold entries from earlier terms that it cannot commit
    /// by counting copies alone. Appending one entry of its own term gives the
    /// commit rule something to latch onto, so those older entries commit along
    /// with it instead of waiting for the next client write. The copies are to be
    /// recounted after that: in a single-node cluster the leader *is* the
    /// majority, so nothing would ever commit if only a peer's acknowledgement
    /// led to a recount.
    pub fn become_leader(&mut self, log: &RaftLog) -> (first: Command)
        requires
            log.wf(),
        ensures
            final(self)@ == old(self)@.leading(log@.len() as int),
            first@ == CommandView::NoOp,
    {
        let start: u64 = log.next_index();
        let ghost node = self@;
        self.next_index.clear();
        self.match_index.clear();
        let mut i: usize = 0;
        while i < self.peers.len()
            invariant
                i <= self.peers@.len(),
                start == log@.len() + 1,
                node.peers == texts_view(self.peers@),
                self@ == (NodeView {
                    next_index: all_to(node.peers.take(i as int), start),
                    match_index: all_to(node.peers.take(i as int), 0),
                    ..node
                }),
            decreases self.peers@.len() - i,
        {
            let peer = self.peers[i].clone();
            proof {
                lemma_all_to_push(node.peers, i as int, start);
                lemma_all_to_push(node.peers, i as int, 0);
                assert(node.peers[i as int] == peer@);
            }
            // Optimistically assume peers match us, and back up on refusal.
            self.next_index.insert(self.peers[i].clone(), start);
            self.match_index.insert(peer, 0);
            i += 1;
        }
        proof {
            assert(node.peers.take(i as int) =~= node.peers);
        }
        self.role = Role::Leader;
        self.leader_id = Some(self.node_id.clone());
        Command::NoOp
    }
}

/// What to do with a request.
pub enum Route {
    /// Answer it.
    Reply(Response),
    /// Append the command to the log as the leader and answer once it has
    /// committed.
    Write(Command),
    /// Decide a vote: see [`Node::handle_request_vote`].
    Vote { term: u64, candidate_id: String, last_log_index: u64, last_log_term: u64 },
    /// Take entries from a leader: see [`Node::handle_append_entries`].
    Append {
        term: u64,
        leader_id: String,
        prev_log_index: u64,
        prev_log_term: u64,
        entries: Vec<LogEntry>,
        leader_commit: u64,
    },
}

pub enum RouteView {
    Reply(ResponseView),
    Write(CommandView),
    Vote { term: u64, candidate_id: Seq<char>, last_log_index: u64, last_log_term: u64 },
    Append {
        term: u64,
        leader_id: Seq<char>,
        prev_log_index: u64,
        prev_log_term: u64,
        entries: Seq<LogEntryView>,
        leader_commit: u64,
    },
}

impl View for Route {
    type V = RouteView;

    open spec fn view(&self) -> RouteView {
        match *self {
            Route::Reply(response) => RouteView::Reply(response@),
            Route::Write(command) => RouteView::Write(command@),
            Route::Vote { term, candidate_id, last_log_index, last_log_term } => RouteView::Vote {
                term,
                candidate_id: candidate_id@,
                last_log_index,
                last_log_term,
            },
            Route::Append {
                term,
                leader_id,
                prev_log_index,
                prev_log_term,
                entries,
                leader_commit,
            } => RouteView::Append {
                term,
                leader_id: leader_id@,
                prev_log_index,
                prev_log_term,
                entries: entries_view(entries@),
                leader_commit,
            },
        }
    }
}

/// What a request asks of a node. Reads and writes both go through the leader, so
/// that a partitioned-off follower can't serve data the cluster has already moved
/// past.
pub open spec fn routed(node: NodeView, command: CommandView) -> RouteView {
    match command {
        CommandView::Put { .. } => if node.role == Role::Leader {
            RouteView::Write(command)
        } else {
            RouteView::Reply(ResponseView::NotLeader { leader: node.leader_id })
        },
        CommandView::Get { key } => RouteView::Reply(
            if node.role != Role::Leader {
                ResponseView::NotLeader { leader: node.leader_id }
            } else if node.db.contains_key(key) {
                ResponseView::Value(Some(node.db[key]))
            } else {
                ResponseView::Error("Key not found"@)
            },
        ),
        CommandView::NoOp => RouteView::Reply(ResponseView::Done),
        CommandView::RequestVote { term, candidate_id, last_log_index, last_log_term } =>
            RouteView::Vote { term, candidate_id, last_log_index, last_log_term },
        CommandView::AppendEntries {
            term,
            leader_id,
            prev_log_index,
            prev_log_term,
            entries,
            leader_commit,
        } => RouteView::Append {
            term,
            leader_id,
            prev_log_index,
            prev_log_term,
            entries,
            leader_commit,
        },
    }
}

/// What came of a vote request, for [`vote_answer`] to answer once the state has
/// been persisted.
pub struct VoteReply {
    /// The term to answer with.
    pub term: u64,
    /// The vote goes to the candidate.
    pub granted: bool,
    /// The state must be persisted before the answer goes out. A vote has to be on
    /// disk before the candidate can count it, or a crash lets us vote twice in one
    /// term; so this holds of every granted vote, also of one that was granted
    /// before, whose state may not have reached the disk then.
    pub needs_save: bool,
}

/// How an `AppendEntries` starts.
pub struct AppendStart {
    /// The state must be persisted before anything else.
    pub needs_save: bool,
    /// The answer, if the message is stale. Otherwise the election timer starts
    /// over and the log is asked to take the entries.
    pub refusal: Option<Response>,
    /// The term to answer with.
    pub local_term: u64,
}

/// How an election ended.
#[derive(Debug, Clone, Copy, PartialEq, Eq, Structural)]
pub enum ElectionEnd {
    /// The node leads: it must append its first command and recount.
    Won,
    /// A majority was reached, but the term has moved on since; acting on it
    /// would clobber whatever the node moved on to.
    Stale,
    /// No majority. The node is a follower again, and its election timer starts
    /// over.
    Lost,
}

/// What an acknowledgement leads to.
#[derive(Debug, Clone, Copy, PartialEq, Eq, Structural)]
pub enum AckStep {
    /// Nothing: it is no acknowledgement, or one learnt under an older term.
    Ignore,
    /// The peer has seen a newer term: the election timer starts over, or it would
    /// fire at once and disrupt the new leader, and the state must be persisted.
    SteppedDown,
    /// The copies of the log are to be recounted.
    Recount,
    /// The next round starts further back.
    BackedUp { to: u64 },
}

/// What became of a client write so far.
#[derive(Debug, Clone, Copy, PartialEq, Eq, Structural)]
pub enum WriteStatus {
    /// The entry is committed, and is the one that was written.
    Committed,
    /// This node leads that term no longer, so the entry may yet be truncated.
    LostLeadership,
    /// Neither yet.
    Pending,
}

/// How waiting for a client write ended.
pub enum WriteEnd {
    Committed,
    LostLeadership,
    TimedOut,
}

/// The answer to a client write. One that did not commit in time is worded as
/// unknown, not failed, because the entry may still commit.
pub open spec fn write_answer(end: WriteEnd, term: u64, index: u64) -> ResponseView {
    match end {
        WriteEnd::Committed => ResponseView::Done,
        WriteEnd::LostLeadership => ResponseView::Error(
            "lost leadership for term "@ + decimal(term as nat) + " before index "@ + decimal(
                index as nat,
            ) + " committed; the write may or may not survive"@,
        ),
        WriteEnd::TimedOut => ResponseView::Error(
            "index "@ + decimal(index as nat)
                + " not committed within 2s; this is unknown, not failed — it may still commit"@,
        ),
    }
}

/// What became of the client write that was appended at `index` in `term`, given
/// that everything up to `committed` is committed.
pub open spec fn write_state(
    node: NodeView,
    log: Seq<LogEntryView>,
    committed: u64,
    index: u64,
    term: u64,
) -> WriteStatus {
    if committed >= index && term_at(log, index as int) == Some(term) {
        WriteStatus::Committed
    } else if node.role != Role::Leader || node.state.current_term != term {
        WriteStatus::LostLeadership
    } else {
        WriteStatus::Pending
    }
}

/// The answer to that write by what the node has committed, if there is one already.
pub open spec fn settled(
    node: NodeView,
    log: Seq<LogEntryView>,
    index: u64,
    term: u64,
) -> Option<ResponseView> {
    match write_state(node, log, node.state.commit_index, index, term) {
        WriteStatus::Committed => Some(write_answer(WriteEnd::Committed, term, index)),
        WriteStatus::LostLeadership => Some(write_answer(WriteEnd::LostLeadership, term, index)),
        WriteStatus::Pending => None,
    }
}

/// The new commit index, if it moved forward.
pub open spec fn newly_committed(before: u64, after: u64) -> Option<u64> {
    if after > before {
        Some(after)
    } else {
        None
    }
}

/// Whether the state must be persisted before an answer goes out: a vote is granted, or
/// the state has changed.
pub open spec fn must_save(granted: bool, before: RaftStateView, after: RaftStateView) -> bool {
    granted || after != before
}

/// Whether a vote is given away: not one that has yet to reach the disk.
pub open spec fn vote_given(granted: bool, needs_save: bool, saved: bool) -> bool {
    granted && (!needs_save || saved)
}

/// The answer to an `AppendEntries` by what the log, now of `len` entries, made of it.
pub open spec fn append_answer(
    outcome: Result<AppendOutcome, WalError>,
    local_term: u64,
    len: nat,
) -> ResponseView {
    match outcome {
        Ok(AppendOutcome::Accepted { match_index }) => ResponseView::AppendEntriesAck {
            term: local_term,
            success: true,
            match_index,
            conflict_index: 0,
        },
        Ok(AppendOutcome::Conflict { conflict_index }) => ResponseView::AppendEntriesAck {
            term: local_term,
            success: false,
            match_index: 0,
            conflict_index,
        },
        Err(_) => ResponseView::AppendEntriesAck {
            term: local_term,
            success: false,
            match_index: 0,
            conflict_index: (len + 1) as u64,
        },
    }
}

/// Whether the reply is a vote for the candidate.
pub open spec fn is_vote(reply: Option<Response>) -> bool {
    reply matches Some(Response::VoteResponse { vote_granted: true, .. })
}

/// How many of the replies are votes.
pub open spec fn granted_votes(replies: Seq<Option<Response>>) -> nat
    decreases replies.len(),
{
    if replies.len() == 0 {
        0
    } else {
        granted_votes(replies.drop_last()) + (if is_vote(replies.last()) {
            1nat
        } else {
            0nat
        })
    }
}

/// The votes a candidate has: its own, and those its peers granted.
pub open spec fn votes_won(replies: Seq<Option<Response>>) -> nat {
    1 + granted_votes(replies)
}

/// The votes a candidate has: its own, and those its peers granted.
pub fn count_votes(replies: &[Option<Response>]) -> (votes: u64)
    requires
        replies@.len() < u64::MAX,
    ensures
        votes == votes_won(replies@),
{
    let mut votes: u64 = 1;
    let mut i: usize = 0;
    assert(replies@.take(0) =~= Seq::empty());
    while i < replies.len()
        invariant
            replies@.len() < u64::MAX,
            i <= replies@.len(),
            votes <= i + 1,
            votes == 1 + granted_votes(replies@.take(i as int)),
        decreases replies@.len() - i,
    {
        assert(replies@.take(i + 1).drop_last() =~= replies@.take(i as int));
        if let Some(Response::VoteResponse { vote_granted, .. }) = &replies[i] {
            if *vote_granted {
                votes += 1;
            }
        }
        i += 1;
    }
    assert(replies@.take(i as int) =~= replies@);
    votes
}

/// The answer to a vote request, where `saved` says whether the state reached the
/// disk. A vote that could not be saved is not given. A vote that is given starts
/// the election timer over.
pub fn vote_answer(reply: VoteReply, saved: bool) -> (response: Response)
    ensures
        response@ == (ResponseView::VoteResponse {
            term: reply.term,
            vote_granted: vote_given(reply.granted, reply.needs_save, saved),
        }),
{
    Response::VoteResponse {
        term: reply.term,
        vote_granted: reply.granted && (!reply.needs_save || saved),
    }
}

/// The answer to a client write whose entry could not be appended.
pub open spec fn failed_write(reason: Seq<char>) -> ResponseView {
    ResponseView::Error("write failed: "@ + reason)
}

/// The answer to a client write whose entry could not be appended.
pub fn append_failure(reason: &str) -> (response: Response)
    ensures
        response@ == failed_write(reason@),
{
    let mut text = String::new();
    text.append("write failed: ");
    text.append(reason);
    assert(text@ =~= "write failed: "@ + reason@);
    Response::Error(text)
}

/// The answer to a client write that was appended at `index` in `term`.
pub fn write_response(end: WriteEnd, term: u64, index: u64) -> (response: Response)
    ensures
        response@ == write_answer(end, term, index),
{
    let mut text = String::new();
    match end {
        WriteEnd::Committed => {
            return Response::Done;
        },
        WriteEnd::LostLeadership => {
            text.append("lost leadership for term ");
            text.append(decimal_text(term).as_str());
            text.append(" before index ");
            text.append(decimal_text(index).as_str());
            text.append(" committed; the write may or may not survive");
        },
        WriteEnd::TimedOut => {
            text.append("index ");
            text.append(decimal_text(index).as_str());
            text.append(
                " not committed within 2s; this is unknown, not failed — it may still commit",
            );
        },
    }
    let response = Response::Error(text);
    assert(response@ =~~= write_answer(end, term, index));
    response
}

impl Node {
    /// Replays the committed prefix of the log into the state machine, at
    /// startup. Committed entries are never truncated, so this is always a valid
    /// view of the data, and the uncommitted tail stays in the log, unapplied.
    ///
    /// The commit index is clamped to the log first, which corruption or a
    /// hand-edited log can make necessary; the result says whether it was, and
    /// the state must then be persisted.
    pub fn restore(&mut self, log: &RaftLog) -> (clamped: bool)
        requires
            log.wf(),
        ensures
            clamped == (old(self)@.state.commit_index > log@.len()),
            final(self)@ == old(self)@.restoring(log@),
    {
        let last: u64 = log.last_index();
        let clamped = self.state.commit_index > last;
        if clamped {
            self.state.commit_index = last;
        }
        self.apply_committed(log);
        clamped
    }

    /// The watchdog: a follower that has heard nothing for longer than its
    /// election timeout becomes a candidate. Returns whether it did, and an
    /// election has to be started.
    pub fn check_timeout(&mut self, elapsed_nanos: u128, timeout_nanos: u128) -> (fired: bool)
        ensures
            fired == old(self)@.times_out(elapsed_nanos, timeout_nanos),
            final(self)@ == old(self)@.waiting(elapsed_nanos, timeout_nanos),
    {
        if self.role != Role::Follower || elapsed_nanos <= timeout_nanos {
            return false;
        }
        self.role = Role::Candidate;
        true
    }

    /// Opens an election: a candidacy for the next term, with a vote for ourselves. That vote is
    /// as binding as any other, so the state must be persisted before anyone else
    /// is asked (see [`Node::request_votes`]). Returns the term.
    pub fn start_election(&mut self) -> (term: u64)
        requires
            old(self)@.state.current_term < u64::MAX,
        ensures
            final(self)@ == old(self)@.campaigning(),
            term == final(self)@.state.current_term,
    {
        self.role = Role::Candidate;
        self.state.current_term = self.state.current_term + 1;
        self.state.voted_for = Some(self.node_id.clone());
        self.state.current_term
    }

    /// The vote request of an election for `term`, for every peer.
    pub fn vote_request(&self, term: u64, log: &RaftLog) -> (request: Command)
        requires
            log.wf(),
        ensures
            request@ == self@.vote_request(term, log@),
    {
        Command::RequestVote {
            term,
            candidate_id: self.node_id.clone(),
            last_log_index: log.last_index(),
            last_log_term: log.last_term(),
        }
    }

    /// The vote request of an election for `term`, once the node's own vote has been
    /// persisted; `saved` says whether that worked. If it did not, nobody is asked,
    /// and the node is a follower again.
    pub fn request_votes(&mut self, term: u64, saved: bool, log: &RaftLog) -> (request: Option<
        Command,
    >)
        requires
            log.wf(),
        ensures
            match request {
                Some(command) => {
                    &&& saved
                    &&& command@ == old(self)@.vote_request(term, log@)
                },
                None => !saved,
            },
            final(self)@ == old(self)@.asking(saved),
    {
        if !saved {
            self.role = Role::Follower;
            return None;
        }
        Some(self.vote_request(term, log))
    }

    /// Ends the election for `term`, in which the node got `votes` votes, its own
    /// included. A winner is given the command that it must append first.
    pub fn finish_election(&mut self, term: u64, votes: u64, log: &RaftLog) -> (ended: (
        ElectionEnd,
        Option<Command>,
    ))
        requires
            log.wf(),
        ensures
            ended.0 == old(self)@.election_end(term, votes),
            match ended.1 {
                Some(first) => ended.0 == ElectionEnd::Won && first@ == CommandView::NoOp,
                None => ended.0 != ElectionEnd::Won,
            },
            final(self)@ == old(self)@.elected(term, votes, log@.len() as int),
    {
        if votes < self.majority() as u64 {
            self.role = Role::Follower;
            return (ElectionEnd::Lost, None);
        }
        if self.state.current_term != term {
            return (ElectionEnd::Stale, None);
        }
        let first = self.become_leader(log);
        (ElectionEnd::Won, Some(first))
    }

    /// What a request asks of this node.
    pub fn route(&self, command: Command) -> (route: Route)
        ensures
            route@ == routed(self@, command@),
    {
        match command {
            Command::Put { key, value } => {
                if self.is_leader() {
                    Route::Write(Command::Put { key, value })
                } else {
                    Route::Reply(Response::NotLeader { leader: self.leader_id.clone() })
                }
            },
            Command::Get { key } => {
                if !self.is_leader() {
                    return Route::Reply(Response::NotLeader { leader: self.leader_id.clone() });
                }
                match self.store.get(key.as_str()) {
                    Some(value) => Route::Reply(Response::Value(Some(value))),
                    None => Route::Reply(Response::Error("Key not found".to_owned())),
                }
            },
            Command::NoOp => Route::Reply(Response::Done),
            Command::RequestVote { term, candidate_id, last_log_index, last_log_term } =>
                Route::Vote { term, candidate_id, last_log_index, last_log_term },
            Command::AppendEntries {
                term,
                leader_id,
                prev_log_index,
                prev_log_term,
                entries,
                leader_commit,
            } => {
                let route = Route::Append {
                    term,
                    leader_id,
                    prev_log_index,
                    prev_log_term,
                    entries,
                    leader_commit,
                };
                assert(route@->entries =~= routed(self@, command@)->entries);
                route
            },
        }
    }

    /// Decides a vote request. The answer is [`vote_answer`]'s, once the state has
    /// been persisted.
    pub fn handle_request_vote(
        &mut self,
        term: u64,
        candidate_id: String,
        last_log_index: u64,
        last_log_term: u64,
        log: &RaftLog,
    ) -> (reply: VoteReply)
        requires
            log.wf(),
        ensures
            final(self)@ == old(self)@.after_request(
                candidate_id@,
                term,
                last_log_index,
                last_log_term,
                log@,
            ),
            reply.term == final(self)@.state.current_term,
            reply.granted == old(self)@.grants_request(
                candidate_id@,
                term,
                last_log_index,
                last_log_term,
                log@,
            ),
            reply.needs_save == must_save(reply.granted, old(self)@.state, final(self)@.state),
    {
        let decision = self.decide_vote(
            &candidate_id,
            term,
            last_log_term,
            last_log_index,
            log.last_term(),
            log.last_index(),
        );
        VoteReply {
            term: self.state.current_term,
            granted: decision.granted,
            needs_save: decision.granted || decision.needs_save,
        }
    }

    /// Starts answering an `AppendEntries`, empty or not. One from an old term is
    /// refused, and doesn't reset the election timer, so a stale leader can't
    /// suppress a legitimate election.
    pub fn handle_append_entries(&mut self, term: u64, leader_id: String) -> (start: AppendStart)
        ensures
            start.needs_save == (term > old(self)@.state.current_term),
            start.needs_save == must_save(false, old(self)@.state, final(self)@.state),
            start.local_term == final(self)@.state.current_term,
            final(self)@ == old(self)@.hearing(term, leader_id@),
            match start.refusal {
                Some(response) => old(self)@.append_refusal(term) == Some(response@),
                None => old(self)@.append_refusal(term) is None,
            },
    {
        let adopted = self.adopt_term_if_newer(term);
        let local_term: u64 = self.state.current_term;
        if term < local_term {
            let refusal = Response::AppendEntriesAck {
                term: local_term,
                success: false,
                match_index: 0,
                conflict_index: 0,
            };
            return AppendStart { needs_save: adopted, refusal: Some(refusal), local_term };
        }
        // If we were still a candidate for this term, someone else's election won
        // it first.
        if self.role == Role::Candidate {
            self.role = Role::Follower;
        }
        self.leader_id = Some(leader_id);
        AppendStart { needs_save: adopted, refusal: None, local_term }
    }

    /// Finishes answering an `AppendEntries` with what the log made of it. A
    /// follower commits what its leader has committed, as far as the two logs are
    /// known to agree. Returns the answer, and the new commit index if it moved.
    pub fn finish_append_entries(
        &mut self,
        local_term: u64,
        outcome: Result<AppendOutcome, WalError>,
        leader_commit: u64,
        log: &RaftLog,
    ) -> (answer: (Response, Option<u64>))
        requires
            log.wf(),
        ensures
            final(self)@ == old(self)@.finishing(outcome, leader_commit, log@),
            answer.0@ == append_answer(outcome, local_term, log@.len()),
            answer.1 == newly_committed(
                old(self)@.state.commit_index,
                final(self)@.state.commit_index,
            ),
    {
        let mut moved: Option<u64> = None;
        let response = match outcome {
            Ok(AppendOutcome::Accepted { match_index }) => {
                // What lies past the last entry sent has not been checked against
                // the leader's log, and must not count as committed.
                let checked: u64 = if leader_commit < match_index {
                    leader_commit
                } else {
                    match_index
                };
                moved = self.advance_commit_to(checked, log);
                Response::AppendEntriesAck {
                    term: local_term,
                    success: true,
                    match_index,
                    conflict_index: 0,
                }
            },
            Ok(AppendOutcome::Conflict { conflict_index }) => Response::AppendEntriesAck {
                term: local_term,
                success: false,
                match_index: 0,
                conflict_index,
            },
            Err(_) => Response::AppendEntriesAck {
                term: local_term,
                success: false,
                match_index: 0,
                conflict_index: log.next_index(),
            },
        };
        (response, moved)
    }

    /// Claims `peer` for a round of replication. Returns false if a previous
    /// round is still in flight.
    pub fn claim_peer(&mut self, peer: &String) -> (claimed: bool)
        ensures
            claimed == old(self)@.is_free(peer@),
            final(self)@ == old(self)@.claiming(peer@),
    {
        self.replicating.insert(peer.clone())
    }

    /// Ends a round of replication to `peer`, however it went.
    pub fn release_peer(&mut self, peer: &str)
        ensures
            final(self)@ == old(self)@.releasing(peer@),
    {
        let _ = self.replicating.remove(peer);
    }

    /// The message for a round of replication to `peer`: whatever it's missing,
    /// or an empty `AppendEntries` as a heartbeat if it's caught up. Only a leader
    /// has one.
    pub fn replication_message(&self, peer: &str, log: &RaftLog) -> (message: Option<Command>)
        requires
            log.wf(),
        ensures
            match message {
                Some(command) => self@.message_for(peer@, log@) == Some(command@),
                None => self@.message_for(peer@, log@) is None,
            },
    {
        if !self.is_leader() {
            return None;
        }
        let next: u64 = match self.next_index.get(peer) {
            Some(index) => *index,
            None => 1,
        };
        let prev_log_index: u64 = if next > 0 {
            next - 1
        } else {
            0
        };
        let prev_log_term: u64 = match log.term_at(prev_log_index) {
            Some(term) => term,
            None => 0,
        };
        let entries = log.entries_from(next, MAX_ENTRIES_PER_APPEND);
        let command = Command::AppendEntries {
            term: self.state.current_term,
            leader_id: self.node_id.clone(),
            prev_log_index,
            prev_log_term,
            entries,
            leader_commit: self.state.commit_index,
        };
        proof {
            let want = self@.append_message(peer@, log@);
            assert(command@->entries =~= entries_view(entries@));
            assert(log@.skip(prev_log_index as int) =~= log@.subrange(
                prev_log_index as int,
                log@.len() as int,
            ));
            assert(command@->entries =~= want->entries);
        }
        Some(command)
    }

    /// Notes that `peer` did not answer. Returns whether that is news.
    pub fn peer_unreachable(&mut self, peer: &String) -> (news: bool)
        ensures
            news == !old(self)@.is_silent(peer@),
            final(self)@ == old(self)@.missing(peer@),
    {
        self.unreachable.insert(peer.clone())
    }

    /// Notes that `peer` answered. Returns whether that is news.
    pub fn peer_reachable(&mut self, peer: &str) -> (news: bool)
        ensures
            news == old(self)@.is_silent(peer@),
            final(self)@ == old(self)@.reaching(peer@),
    {
        self.unreachable.remove(peer)
    }

    /// Takes the answer of `peer` to a message that was sent in `sent_term`.
    pub fn handle_append_ack(&mut self, peer: &String, sent_term: u64, response: &Response) -> (step:
        AckStep)
        requires
            match response@ {
                ResponseView::AppendEntriesAck { term, success, match_index, .. } => success && term
                    <= old(self)@.state.current_term && old(self)@.role == Role::Leader && old(
                    self,
                )@.state.current_term == sent_term ==> match_index < u64::MAX,
                _ => true,
            },
        ensures
            step == old(self)@.ack_step(sent_term, response@),
            final(self)@ == old(self)@.answered(peer@, sent_term, response@),
    {
        match response {
            Response::AppendEntriesAck { term, success, match_index, conflict_index } => {
                // Someone else won an election we don't know about yet.
                if self.adopt_term_if_newer(*term) {
                    return AckStep::SteppedDown;
                }
                // Anything learnt under an older term is stale by now.
                if !self.is_leader() || self.state.current_term != sent_term {
                    return AckStep::Ignore;
                }
                if *success {
                    let current: u64 = match self.match_index.get(peer.as_str()) {
                        Some(index) => *index,
                        None => 0,
                    };
                    if *match_index > current {
                        self.match_index.insert(peer.clone(), *match_index);
                        self.next_index.insert(peer.clone(), *match_index + 1);
                    }
                    AckStep::Recount
                } else {
                    let to: u64 = if *conflict_index > 1 {
                        *conflict_index
                    } else {
                        1
                    };
                    self.next_index.insert(peer.clone(), to);
                    AckStep::BackedUp { to }
                }
            },
            _ => AckStep::Ignore,
        }
    }

    /// Whether the client that wrote the entry at `index` in `term` can be
    /// answered, given that everything up to `committed` is committed. The write is
    /// only as good as the entry: where another leader's entry has taken its place,
    /// success must not be reported for it.
    pub fn write_status(&self, log: &RaftLog, committed: u64, index: u64, term: u64) -> (status:
        WriteStatus)
        requires
            log.wf(),
        ensures
            status == write_state(self@, log@, committed, index, term),
    {
        if committed >= index && log.term_at(index) == Some(term) {
            return WriteStatus::Committed;
        }
        if !self.is_leader() || self.state.current_term != term {
            return WriteStatus::LostLeadership;
        }
        WriteStatus::Pending
    }

    /// The answer to the client that wrote the entry at `index` in `term`, if there
    /// is one already.
    pub fn settle_write(&self, log: &RaftLog, index: u64, term: u64) -> (answer: Option<Response>)
        requires
            log.wf(),
        ensures
            match answer {
                Some(response) => settled(self@, log@, index, term) == Some(response@),
                None => settled(self@, log@, index, term) is None,
            },
    {
        match self.write_status(log, self.state.commit_index, index, term) {
            WriteStatus::Committed => Some(write_response(WriteEnd::Committed, term, index)),
            WriteStatus::LostLeadership => Some(
                write_response(WriteEnd::LostLeadership, term, index),
            ),
            WriteStatus::Pending => None,
        }
    }
}

proof fn lemma_all_to_push(keys: Seq<Seq<char>>, i: int, value: u64)
    requires
        0 <= i < keys.len(),
    ensures
        all_to(keys.take(0), value) == Map::<Seq<char>, u64>::empty(),
        all_to(keys.take(i + 1), value) == all_to(keys.take(i), value).insert(keys[i], value),
{
    let (a, b) = (keys.take(i), keys.take(i + 1));
    assert(all_to(keys.take(0), value) =~= Map::empty());
    assert(b =~= a.push(keys[i]));
    assert forall|k: Seq<char>| #[trigger] b.contains(k) == (a.contains(k) || k == keys[i]) by {
        if b.contains(k) {
            let j = choose|j: int| 0 <= j < b.len() && b[j] == k;
            if j < i {
                assert(a[j] == k);
            }
        }
        if a.contains(k) {
            let j = choose|j: int| 0 <= j < a.len() && a[j] == k;
            assert(b[j] == k);
        }
        if k == keys[i] {
            assert(b[i] == k);
        }
    }
    assert(all_to(keys.take(i + 1), value) =~= all_to(keys.take(i), value).insert(keys[i], value));
}

} // verus!
