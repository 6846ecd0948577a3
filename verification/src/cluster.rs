//! A cluster of nodes and the messages between them, as a transition system.
//!
//! Each member is a node and its log. A step is one thing that one member does;
//! what it does to the node and to the log is what the methods of
//! [`crate::node::Node`] and [`crate::raft_log::RaftLog`] do. A step sees the two as
//! they are at one moment, so whoever calls those methods keeps others from the log
//! until the step is done, and persists the node's state before anything is sent
//! that rests on it. A message that was sent can arrive at any later time, any
//! number of times, or never, and an answer belongs to the request it answers.
//! Members can die and come back at any moment with their log and the state they
//! had persisted.
//!
//! A member that comes back has its term and its vote: a step whose state was not on
//! disk when the member died has not happened. So nothing here is about a member that
//! goes on after a save that failed, answers by a term that it adopted but could not
//! write down, and then dies and comes back in an older one.

use crate::message::{CommandView, LogEntryView, ResponseView};
use crate::node::{min, NodeView, Role};
use crate::node_laws::restarted;
use crate::quorum::majority_of;
use crate::raft_log::{
    after_append,
    all_written,
    append_op_count,
    last_term,
    matches_at,
    LogState,
};
use crate::state::{fresh_state, RaftStateView};
use vstd::prelude::*;

verus! {

/// A node and its log.
#[verifier::ext_equal]
pub struct Member {
    pub node: NodeView,
    pub log: LogState,
}

/// Something that was sent.
pub enum Message {
    /// A vote request, for everyone.
    VoteRequest { command: CommandView },
    /// An `AppendEntries`.
    Append { to: Seq<char>, command: CommandView },
    /// The answer to a request.
    Reply { from: Seq<char>, request: CommandView, response: ResponseView },
}

/// The members by their identity, and everything that was ever sent.
#[verifier::ext_equal]
pub struct Cluster {
    pub members: Map<Seq<char>, Member>,
    pub sent: Set<Message>,
}

/// Something that the member `id` does.
pub enum Step {
    /// Its election timeout fires: it becomes a candidate and asks for votes.
    Campaign { id: Seq<char> },
    /// It decides a vote request.
    Vote { id: Seq<char>, request: CommandView },
    /// It wins the election it asked for with `request`: `voters` are the peers
    /// that voted for it.
    Win { id: Seq<char>, request: CommandView, voters: Set<Seq<char>> },
    /// It gives up an election.
    Lose { id: Seq<char> },
    /// As the leader, it appends a command of its own or of a client, whose record
    /// takes `len` bytes.
    Write { id: Seq<char>, command: CommandView, len: nat },
    /// As the leader, it sends `peer` what that is missing.
    Send { id: Seq<char>, peer: Seq<char> },
    /// It takes entries; the first `performed` changes to the log file succeed.
    Take { id: Seq<char>, request: CommandView, payloads: Seq<Seq<u8>>, performed: int },
    /// As the leader, it learns that `peer` took what was sent with `request`.
    Acknowledge { id: Seq<char>, peer: Seq<char>, request: CommandView, match_index: u64 },
    /// As the leader, it learns that `peer` refused.
    BackUp { id: Seq<char>, peer: Seq<char>, conflict_index: u64 },
    /// It learns of a term.
    Hear { id: Seq<char>, term: u64 },
    /// As the leader, it counts the copies of its log.
    Recount { id: Seq<char> },
    /// It dies and comes back with its term and its vote, and with some commit index
    /// that it had persisted.
    Restart { id: Seq<char>, commit_index: u64 },
}

/// The member that does it.
pub open spec fn actor(step: Step) -> Seq<char> {
    match step {
        Step::Campaign { id } => id,
        Step::Vote { id, .. } => id,
        Step::Win { id, .. } => id,
        Step::Lose { id } => id,
        Step::Write { id, .. } => id,
        Step::Send { id, .. } => id,
        Step::Take { id, .. } => id,
        Step::Acknowledge { id, .. } => id,
        Step::BackUp { id, .. } => id,
        Step::Hear { id, .. } => id,
        Step::Recount { id } => id,
        Step::Restart { id, .. } => id,
    }
}

/// Where a log ends: the term and the index of its last entry.
pub open spec fn ends_at(log: Seq<LogEntryView>) -> (u64, u64) {
    (last_term(log), log.len() as u64)
}

/// The request it asks with.
pub open spec fn vote_request(node: NodeView, log: Seq<LogEntryView>) -> CommandView {
    CommandView::RequestVote {
        term: node.state.current_term,
        candidate_id: node.node_id,
        last_log_index: log.len() as u64,
        last_log_term: last_term(log),
    }
}

/// The entry that a command of the leader becomes.
pub open spec fn next_entry(m: Member, command: CommandView) -> LogEntryView {
    LogEntryView {
        term: m.node.state.current_term,
        index: (m.log.entries.len() + 1) as u64,
        command,
    }
}

/// Whether the member takes all entries of a message.
pub open spec fn accepts(
    m: Member,
    request: CommandView,
    payloads: Seq<Seq<u8>>,
    performed: int,
) -> bool {
    match request {
        CommandView::AppendEntries { term, prev_log_index, prev_log_term, entries, .. } => {
            &&& term >= m.node.state.current_term
            &&& matches_at(m.log.entries, prev_log_index as int, prev_log_term)
            &&& all_written(m.log, entries, payloads, performed)
        },
        _ => false,
    }
}

/// The member after it took what it could of a message.
pub open spec fn after_take(
    m: Member,
    request: CommandView,
    payloads: Seq<Seq<u8>>,
    performed: int,
) -> Member {
    match request {
        CommandView::AppendEntries {
            term,
            leader_id,
            prev_log_index,
            prev_log_term,
            entries,
            leader_commit,
        } => {
            if term < m.node.state.current_term {
                m
            } else {
                let node = m.node.following(term, leader_id);
                if !matches_at(m.log.entries, prev_log_index as int, prev_log_term) {
                    Member { node, ..m }
                } else {
                    let log = after_append(m.log, entries, payloads, performed);
                    Member {
                        node: if all_written(m.log, entries, payloads, performed) {
                            node.committing(
                                min(
                                    leader_commit as int,
                                    prev_log_index + entries.len(),
                                ) as u64,
                                log.entries,
                            )
                        } else {
                            node
                        },
                        log,
                    }
                }
            }
        },
        _ => m,
    }
}

/// The acknowledgement of a message that was taken in full.
pub open spec fn acknowledgement(term: u64, match_index: u64) -> ResponseView {
    ResponseView::AppendEntriesAck { term, success: true, match_index, conflict_index: 0 }
}

/// The node once it has come back with its log.
pub open spec fn restored(node: NodeView, commit_index: u64, log: Seq<LogEntryView>) -> NodeView {
    (NodeView {
        state: RaftStateView {
            commit_index: min(commit_index as int, log.len() as int) as u64,
            ..node.state
        },
        ..restarted(node)
    }).applying(log)
}

/// The member after the step.
pub open spec fn member_after(m: Member, step: Step) -> Member {
    match step {
        Step::Campaign { .. } => Member { node: m.node.campaigning(), ..m },
        Step::Vote { request, .. } => match request {
            CommandView::RequestVote { term, candidate_id, last_log_index, last_log_term } =>
                Member {
                    node: m.node.voting(
                        candidate_id,
                        term,
                        (last_log_term, last_log_index),
                        ends_at(m.log.entries),
                    ),
                    ..m
                },
            _ => m,
        },
        Step::Win { .. } => Member { node: m.node.leading(m.log.entries.len() as int), ..m },
        Step::Lose { .. } => Member { node: NodeView { role: Role::Follower, ..m.node }, ..m },
        Step::Write { command, len, .. } => Member {
            log: m.log.grown(next_entry(m, command), len),
            ..m
        },
        Step::Send { .. } => m,
        Step::Take { request, payloads, performed, .. } => after_take(
            m,
            request,
            payloads,
            performed,
        ),
        Step::Acknowledge { peer, match_index, .. } => Member {
            node: m.node.acknowledged(peer, match_index),
            ..m
        },
        Step::BackUp { peer, conflict_index, .. } => Member {
            node: m.node.backing_up(peer, conflict_index),
            ..m
        },
        Step::Hear { term, .. } => Member { node: m.node.adopting(term), ..m },
        Step::Recount { .. } => Member { node: m.node.counting(m.log.entries), ..m },
        Step::Restart { commit_index, .. } => Member {
            node: restored(m.node, commit_index, m.log.entries),
            ..m
        },
    }
}

/// Whether the member `id` grants the vote it is asked for.
pub open spec fn grants_request(m: Member, request: CommandView) -> bool {
    match request {
        CommandView::RequestVote { term, candidate_id, last_log_index, last_log_term } =>
            m.node.grants(
                candidate_id,
                term,
                (last_log_term, last_log_index),
                ends_at(m.log.entries),
            ),
        _ => false,
    }
}

/// What the member sends with the step.
pub open spec fn sent_with(m: Member, step: Step) -> Set<Message> {
    match step {
        Step::Campaign { .. } => set![
            Message::VoteRequest { command: vote_request(m.node.campaigning(), m.log.entries) },
        ],
        Step::Vote { id, request } => set![
            Message::Reply {
                from: id,
                request,
                response: ResponseView::VoteResponse {
                    term: member_after(m, step).node.state.current_term,
                    vote_granted: grants_request(m, request),
                },
            },
        ],
        Step::Send { peer, .. } => set![
            Message::Append { to: peer, command: m.node.append_message(peer, m.log.entries) },
        ],
        Step::Take { id, request, payloads, performed } => match request {
            CommandView::AppendEntries { prev_log_index, entries, .. } => if accepts(
                m,
                request,
                payloads,
                performed,
            ) {
                set![
                    Message::Reply {
                        from: id,
                        request,
                        response: acknowledgement(
                            member_after(m, step).node.state.current_term,
                            (prev_log_index + entries.len()) as u64,
                        ),
                    },
                ]
            } else {
                Set::empty()
            },
            _ => Set::empty(),
        },
        _ => Set::empty(),
    }
}

/// Whether `voter` has granted the vote that `request` asks for.
pub open spec fn has_granted(c: Cluster, voter: Seq<char>, request: CommandView) -> bool {
    exists|term: u64|
        c.sent.contains(
            Message::Reply {
                from: voter,
                request,
                response: #[trigger] vote_granted_in(term),
            },
        )
}

/// A granted vote.
pub open spec fn vote_granted_in(term: u64) -> ResponseView {
    ResponseView::VoteResponse { term, vote_granted: true }
}

/// Whether the step can happen.
pub open spec fn enabled(c: Cluster, step: Step) -> bool {
    let m = c.members[actor(step)];
    &&& c.members.contains_key(actor(step))
    &&& match step {
        Step::Campaign { .. } => m.node.role == Role::Follower && m.node.state.current_term
            < u64::MAX,
        Step::Vote { request, .. } => request is RequestVote && c.sent.contains(
            Message::VoteRequest { command: request },
        ),
        Step::Win { id, request, voters } => request matches CommandView::RequestVote {
            term,
            candidate_id,
            ..
        } && {
            &&& c.sent.contains(Message::VoteRequest { command: request })
            &&& candidate_id == id
            &&& term == m.node.state.current_term
            &&& voters.subset_of(m.node.peers.to_set())
            &&& forall|v: Seq<char>| #[trigger]
                voters.contains(v) ==> has_granted(c, v, request)
            &&& voters.len() + 1 >= majority_of(m.node.peers.len())
        },
        Step::Write { .. } => m.node.role == Role::Leader && m.log.entries.len() + 1 < u64::MAX,
        Step::Send { peer, .. } => m.node.role == Role::Leader && m.node.peers.contains(peer),
        Step::Take { id, request, payloads, performed } => request matches CommandView::AppendEntries {
            entries,
            ..
        } && {
            &&& c.sent.contains(Message::Append { to: id, command: request })
            &&& payloads.len() == entries.len()
            &&& 0 <= performed <= append_op_count(m.log, entries, payloads)
        },
        Step::Acknowledge { id, peer, request, match_index } => request matches CommandView::AppendEntries {
            term,
            leader_id,
            ..
        } && {
            &&& m.node.role == Role::Leader
            &&& term == m.node.state.current_term
            &&& leader_id == id
            &&& c.sent.contains(
                Message::Reply { from: peer, request, response: acknowledgement(term, match_index) },
            )
        },
        Step::BackUp { .. } => m.node.role == Role::Leader,
        Step::Recount { .. } => m.node.role == Role::Leader,
        Step::Restart { commit_index, .. } => commit_index <= m.node.state.commit_index,
        Step::Lose { .. } => true,
        Step::Hear { .. } => true,
    }
}

/// The cluster after the step.
pub open spec fn after_step(c: Cluster, step: Step) -> Cluster {
    let id = actor(step);
    let m = c.members[id];
    Cluster {
        members: c.members.insert(id, member_after(m, step)),
        sent: c.sent.union(sent_with(m, step)),
    }
}

/// A cluster that has just been set up: every member knows all the others, none
/// has ever voted, and every log and every state machine is empty.
pub open spec fn is_fresh(c: Cluster) -> bool {
    &&& c.members.dom().finite()
    &&& c.sent == Set::<Message>::empty()
    &&& forall|id: Seq<char>| #[trigger]
        c.members.contains_key(id) ==> {
            let m = c.members[id];
            &&& m.node.node_id == id
            &&& m.node.peers.no_duplicates()
            &&& m.node.peers.to_set() == c.members.dom().remove(id)
            &&& m.node.state == fresh_state()
            &&& m.node.role == Role::Follower
            &&& m.node.db == Map::<Seq<char>, Seq<u8>>::empty()
            &&& m.node.last_applied == 0
            &&& m.log.entries.len() == 0
            &&& m.log.offsets.len() == 0
        }
}

/// The cluster after the first `n` steps.
pub open spec fn after_steps(start: Cluster, steps: Seq<Step>, n: int) -> Cluster
    decreases n,
{
    if n <= 0 {
        start
    } else {
        after_step(after_steps(start, steps, n - 1), steps[n - 1])
    }
}

/// Every one of the steps can happen when it does.
pub open spec fn can_run(start: Cluster, steps: Seq<Step>) -> bool {
    &&& is_fresh(start)
    &&& forall|i: int|
        0 <= i < steps.len() ==> #[trigger] enabled(after_steps(start, steps, i), steps[i])
}

/// Whether `id` leads.
pub open spec fn leads(c: Cluster, id: Seq<char>) -> bool {
    c.members.contains_key(id) && c.members[id].node.role == Role::Leader
}

/// The member's current term.
pub open spec fn term_of(c: Cluster, id: Seq<char>) -> u64 {
    c.members[id].node.state.current_term
}

/// The entries of the member's log.
pub open spec fn log_of(c: Cluster, id: Seq<char>) -> Seq<LogEntryView> {
    c.members[id].log.entries
}

/// Counting the copies of its log, the leader commits everything up to `index`,
/// which was not committed before.
pub open spec fn commits(c: Cluster, id: Seq<char>, index: int) -> bool {
    let node = c.members[id].node;
    &&& leads(c, id)
    &&& node.counting(log_of(c, id)).state.commit_index > node.state.commit_index
    &&& 0 <= index <= node.counting(log_of(c, id)).state.commit_index
}

} // verus!
