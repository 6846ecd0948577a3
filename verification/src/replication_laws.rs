//! What a node does with entries: what the leader sends, what it makes of the answers,
//! and what either side commits and applies.

use crate::election_laws::{same_books, same_data};
use crate::kv::{law_replay_composes, replayed_onto};
use crate::message::{CommandView, LogEntryView, ResponseView};
use crate::node::{
    append_answer,
    copies,
    get_or,
    newly_committed,
    routed,
    AckStep,
    NodeView,
    Role,
    RouteView,
};
use crate::quorum::{
    count_at_least,
    law_count_is_of_positions,
    law_majority_is_just_over_half,
    law_reached_number_is_the_greatest,
    lemma_reached_by_exists,
    lemma_reached_by_unique,
    majority_of,
    positions_at_least,
};
use crate::raft_log::{term_at, AppendOutcome};
use crate::wal::WalError;
use vstd::prelude::*;

verus! {

/// The commit rule makes progress: if the greatest index that a majority of the copies
/// reach is above the commit index, and the leader's entry there is of its own term,
/// then that index is the new commit index, wherever in the log it is.
pub proof fn law_majority_index_is_committed(node: NodeView, log: Seq<LogEntryView>, v: u64)
    requires
        node.role == Role::Leader,
        log.len() <= u64::MAX,
        v > node.state.commit_index,
        count_at_least(copies(node.peers, node.match_index, log.len() as u64), v as int)
            >= majority_of(node.peers.len()),
        count_at_least(copies(node.peers, node.match_index, log.len() as u64), v + 1)
            < majority_of(node.peers.len()),
        term_at(log, v as int) == Some(node.state.current_term),
    ensures
        node.counting(log).state.commit_index == v,
{
    lemma_reached_by_unique(
        copies(node.peers, node.match_index, log.len() as u64),
        majority_of(node.peers.len()),
        v,
    );
}

/// The positions of the peers that have acknowledged everything up to `v`.
pub open spec fn holders(node: NodeView, v: int) -> Set<int> {
    Set::new(
        |i: int|
            0 <= i < node.peers.len() && node.match_index.contains_key(node.peers[i])
                && node.match_index[node.peers[i]] >= v,
    )
}

/// The copies that reach an index of the leader's log are the leader's own and those of
/// the peers that acknowledged it.
proof fn lemma_holders(node: NodeView, log: Seq<LogEntryView>, v: int)
    requires
        1 <= v,
        log.len() <= u64::MAX,
    ensures
        holders(node, v).finite(),
        count_at_least(copies(node.peers, node.match_index, log.len() as u64), v)
            == holders(node, v).len() + (if v <= log.len() {
            1nat
        } else {
            0nat
        }),
{
    let held = copies(node.peers, node.match_index, log.len() as u64);
    let last = node.peers.len() as int;
    law_count_is_of_positions(held, v);
    let reaching = positions_at_least(held, v);
    assert forall|i: int| 0 <= i < last implies held[i] == get_or(
        node.match_index,
        node.peers[i],
        0,
    ) by {}
    assert(held[last] == log.len());
    if v <= log.len() {
        assert(reaching =~= holders(node, v).insert(last));
        assert(holders(node, v) =~= reaching.remove(last));
    } else {
        assert(reaching =~= holders(node, v));
    }
}

/// An entry of the leader's own term is committed as soon as the leader and the peers
/// that acknowledged it are more than half of the cluster, whatever else is in the log
/// after it.
pub proof fn law_entry_held_by_a_majority_is_committed(
    node: NodeView,
    log: Seq<LogEntryView>,
    v: int,
)
    requires
        node.role == Role::Leader,
        1 <= v <= log.len() <= u64::MAX,
        2 * (1 + holders(node, v).len()) > node.peers.len() + 1,
        forall|i: int| v - 1 <= i < log.len() ==> (#[trigger] log[i]).term
            == node.state.current_term,
        forall|p: Seq<char>| #[trigger]
            node.match_index.contains_key(p) ==> node.match_index[p] <= log.len(),
    ensures
        node.counting(log).state.commit_index >= v,
{
    let held = copies(node.peers, node.match_index, log.len() as u64);
    let k = majority_of(node.peers.len());
    lemma_holders(node, log, v);
    law_majority_is_just_over_half(node.peers.len(), 1 + holders(node, v).len());
    lemma_reached_by_exists(held, k);
    let w = node.majority_index(log);
    if v > w {
        law_reached_number_is_the_greatest(held, k, v);
        law_count_is_of_positions(held, v);
    }
    assert(w <= log.len()) by {
        if w > log.len() {
            lemma_holders(node, log, w as int);
            assert(holders(node, w as int) =~= Set::empty());
        }
    }
    if w > node.state.commit_index {
        assert(log[w - 1].term == node.state.current_term);
    }
}

/// The leader commits nothing else: where its commit index moves, the leader and the
/// peers that acknowledged the entry there are more than half of the cluster, and the
/// entry is of the leader's own term.
pub proof fn law_nothing_is_committed_without_a_majority(node: NodeView, log: Seq<LogEntryView>)
    requires
        log.len() <= u64::MAX,
        node.counting(log).state.commit_index != node.state.commit_index,
    ensures
        ({
            let v = node.counting(log).state.commit_index as int;
            &&& node.role == Role::Leader
            &&& node.state.commit_index < v <= log.len()
            &&& log[v - 1].term == node.state.current_term
            &&& 2 * (1 + holders(node, v).len()) > node.peers.len() + 1
        }),
{
    let held = copies(node.peers, node.match_index, log.len() as u64);
    let k = majority_of(node.peers.len());
    let v = node.counting(log).state.commit_index as int;
    lemma_reached_by_exists(held, k);
    lemma_holders(node, log, v);
    law_majority_is_just_over_half(node.peers.len(), 1 + holders(node, v).len());
}

/// Counting copies moves the commit index and applies what that commits. Term, vote,
/// role and the books on the peers stay, and a node that does not lead stays as it is.
pub proof fn law_counting_changes_only_what_is_committed(node: NodeView, log: Seq<LogEntryView>)
    ensures
        node.role != Role::Leader ==> node.counting(log) == node,
        node.counting(log).state.commit_index == node.state.commit_index ==> node.counting(log)
            == node,
        node.counting(log).state.current_term == node.state.current_term,
        node.counting(log).state.voted_for == node.state.voted_for,
        node.counting(log).role == node.role,
        node.counting(log).leader_id == node.leader_id,
        node.counting(log).node_id == node.node_id,
        node.counting(log).peers == node.peers,
        same_books(node.counting(log), node),
{
}

/// The commit index moves to where it is told to, as far as the log reaches, and never
/// back. Everything that is committed by then has been applied.
pub proof fn law_commit_index_moves_forward_to_the_mark(
    node: NodeView,
    mark: u64,
    log: Seq<LogEntryView>,
)
    requires
        node.last_applied <= node.state.commit_index,
    ensures
        ({
            let after = node.committing(mark, log);
            &&& mark <= node.state.commit_index || log.len() <= node.state.commit_index ==> after
                == node
            &&& node.state.commit_index < mark <= log.len() ==> after.state.commit_index == mark
                && after.last_applied == mark
            &&& node.state.commit_index < log.len() < mark ==> after.state.commit_index
                == log.len() && after.last_applied == log.len()
            &&& after.state.current_term == node.state.current_term
            &&& after.state.voted_for == node.state.voted_for
            &&& after.role == node.role
            &&& after.leader_id == node.leader_id
            &&& after.node_id == node.node_id
            &&& after.peers == node.peers
            &&& same_books(after, node)
        }),
{
}

/// Clients are told of a commit index that moved, and of the new one.
pub proof fn law_moved_commit_index_is_reported(before: u64, after: u64)
    ensures
        after > before ==> newly_committed(before, after) == Some(after),
        after <= before ==> newly_committed(before, after) is None,
{
}

/// Being told twice is being told the greater of the two.
pub proof fn law_commits_come_in_any_order(
    node: NodeView,
    a: u64,
    b: u64,
    log: Seq<LogEntryView>,
)
    requires
        a <= b,
    ensures
        node.committing(a, log).committing(b, log).state.commit_index == node.committing(
            b,
            log,
        ).state.commit_index,
        node.committing(b, log).committing(a, log) == node.committing(b, log),
{
}

/// Committed entries are applied one after the other, each once, in the order of the
/// log: to apply them is to apply the next one, which writes its key if it is a write
/// and changes nothing otherwise, and then the rest.
pub proof fn law_entries_are_applied_in_order(node: NodeView, log: Seq<LogEntryView>)
    requires
        node.last_applied < node.state.commit_index,
        node.last_applied < log.len(),
    ensures
        ({
            let db = match log[node.last_applied as int].command {
                CommandView::Put { key, value } => node.db.insert(key, value),
                _ => node.db,
            };
            let stepped = NodeView { db, last_applied: (node.last_applied + 1) as u64, ..node };
            node.applying(log) == stepped.applying(log)
        }),
{
    let at = node.last_applied as int;
    let target = if node.state.commit_index < log.len() {
        node.state.commit_index as int
    } else {
        log.len() as int
    };
    let first = seq![log[at]];
    let rest = log.subrange(at + 1, target);
    assert(log.subrange(at, target) =~= first + rest);
    law_replay_composes(node.db, first, rest);
    reveal_with_fuel(replayed_onto, 2);
    assert(first.drop_last() =~= Seq::empty());
    let db = match log[at].command {
        CommandView::Put { key, value } => node.db.insert(key, value),
        _ => node.db,
    };
    assert(replayed_onto(node.db, first) == db);
    let stepped = NodeView { db, last_applied: (node.last_applied + 1) as u64, ..node };
    if at + 1 == target {
        assert(rest =~= Seq::empty());
    }
    assert(node.applying(log) =~= stepped.applying(log));
}

/// With nothing committed that has not been applied, or nothing of it in the log,
/// applying does nothing.
pub proof fn law_nothing_is_applied_twice(node: NodeView, log: Seq<LogEntryView>)
    ensures
        node.last_applied >= node.state.commit_index || node.last_applied >= log.len()
            ==> node.applying(log) == node,
        node.applying(log).applying(log) == node.applying(log),
        node.applying(log).state == node.state,
        node.applying(log).role == node.role,
        node.applying(log).leader_id == node.leader_id,
        node.applying(log).node_id == node.node_id,
        node.applying(log).peers == node.peers,
        same_books(node.applying(log), node),
{
}

/// A node that starts from a log commits no more than the log holds and what it had
/// persisted; it has then applied all of that. Its term and vote are as persisted.
pub proof fn law_start_is_clamped_to_the_log(node: NodeView, log: Seq<LogEntryView>)
    requires
        node.last_applied == 0,
        log.len() <= u64::MAX,
    ensures
        node.state.commit_index <= log.len() ==> node.restoring(log).state == node.state,
        node.state.commit_index > log.len() ==> node.restoring(log).state.commit_index
            == log.len(),
        node.restoring(log).last_applied == node.restoring(log).state.commit_index,
        node.restoring(log).state.current_term == node.state.current_term,
        node.restoring(log).state.voted_for == node.state.voted_for,
        node.restoring(log).db == replayed_onto(
            node.db,
            log.take(node.restoring(log).state.commit_index as int),
        ),
        node.restoring(log).role == node.role,
        node.restoring(log).leader_id == node.leader_id,
        node.restoring(log).node_id == node.node_id,
        node.restoring(log).peers == node.peers,
        same_books(node.restoring(log), node),
{
    let end = node.restoring(log).state.commit_index as int;
    assert(log.take(end) =~= log.subrange(0, end));
    assert(log.take(0) =~= Seq::empty());
}

/// A message of an older term is refused with the node's own term and leaves the node
/// as it is; any other is taken up.
pub proof fn law_stale_leader_is_told_the_term(node: NodeView, term: u64, leader: Seq<char>)
    ensures
        term < node.state.current_term ==> {
            &&& node.hearing(term, leader) == node
            &&& node.append_refusal(term) matches Some(
                ResponseView::AppendEntriesAck { term: told, success, .. },
            ) && told == node.state.current_term && !success
        },
        term >= node.state.current_term ==> node.append_refusal(term) is None,
{
}

/// Whoever sent the last message that was not stale is the leader that the node names:
/// a read or write that it cannot serve itself is sent there, whomever it named before.
pub proof fn law_last_sender_is_named_to_clients(
    node: NodeView,
    term: u64,
    sender: Seq<char>,
    key: Seq<char>,
    value: Seq<u8>,
)
    requires
        term >= node.state.current_term,
    ensures
        node.hearing(term, sender).leader_id == Some(sender),
        node.hearing(term, sender).role != Role::Leader ==> {
            let answer = RouteView::Reply(ResponseView::NotLeader { leader: Some(sender) });
            &&& routed(node.hearing(term, sender), CommandView::Get { key }) == answer
            &&& routed(node.hearing(term, sender), CommandView::Put { key, value }) == answer
        },
        term > node.state.current_term || node.role != Role::Leader ==> node.hearing(
            term,
            sender,
        ).role == Role::Follower,
{
}

/// The same after any two messages in order, of the same leader or of two: clients are
/// sent to the second sender, and the term is the second one's.
pub proof fn law_a_new_leader_replaces_the_old_one(
    node: NodeView,
    first_term: u64,
    first: Seq<char>,
    second_term: u64,
    second: Seq<char>,
    key: Seq<char>,
    value: Seq<u8>,
)
    requires
        node.state.current_term <= first_term <= second_term,
        node.role != Role::Leader,
    ensures
        ({
            let after = node.hearing(first_term, first).hearing(second_term, second);
            let answer = RouteView::Reply(ResponseView::NotLeader { leader: Some(second) });
            &&& after.state.current_term == second_term
            &&& routed(after, CommandView::Get { key }) == answer
            &&& routed(after, CommandView::Put { key, value }) == answer
        }),
{
}

/// A message that is not stale brings its term, in which a newer one leaves no vote; a
/// candidate of that term gives up, and its vote stands. Data and books stay.
pub proof fn law_hearing_a_leader_changes_only_the_allegiance(
    node: NodeView,
    term: u64,
    leader: Seq<char>,
)
    requires
        term >= node.state.current_term,
    ensures
        node.hearing(term, leader).state.current_term == term,
        term == node.state.current_term ==> node.hearing(term, leader).state == node.state,
        term > node.state.current_term ==> node.hearing(term, leader).state.voted_for is None,
        node.hearing(term, leader).role != Role::Candidate,
        node.role == Role::Leader && term == node.state.current_term ==> node.hearing(
            term,
            leader,
        ).role == Role::Leader,
        same_data(node.hearing(term, leader), node),
        same_books(node.hearing(term, leader), node),
{
}

/// A follower that took everything up to `match_index` commits what its leader has
/// committed, up to there, and no less than before.
pub proof fn law_follower_commits_what_its_leader_has(
    node: NodeView,
    match_index: u64,
    leader_commit: u64,
    log: Seq<LogEntryView>,
)
    requires
        match_index <= log.len(),
        node.last_applied <= node.state.commit_index,
    ensures
        ({
            let after = node.finishing(
                Ok(AppendOutcome::Accepted { match_index }),
                leader_commit,
                log,
            );
            let commit = after.state.commit_index;
            &&& node.state.commit_index < leader_commit <= match_index ==> commit == leader_commit
                && after.last_applied == leader_commit
            &&& node.state.commit_index < match_index < leader_commit ==> commit == match_index
                && after.last_applied == match_index
            &&& leader_commit <= node.state.commit_index || match_index <= node.state.commit_index
                ==> after == node
            &&& after.state.current_term == node.state.current_term
            &&& after.state.voted_for == node.state.voted_for
            &&& after.role == node.role
            &&& after.leader_id == node.leader_id
            &&& same_books(after, node)
        }),
{
}

/// A follower that did not take the entries commits nothing and stays as it is.
pub proof fn law_refused_entries_commit_nothing(
    node: NodeView,
    outcome: Result<AppendOutcome, WalError>,
    leader_commit: u64,
    log: Seq<LogEntryView>,
)
    requires
        !(outcome matches Ok(AppendOutcome::Accepted { .. })),
    ensures
        node.finishing(outcome, leader_commit, log) == node,
{
}

/// Success is reported exactly if the entries were taken, with how far the logs agree;
/// a refusal says where to go on, which is right after the log's end if the log could
/// not be written.
pub proof fn law_answer_reports_the_outcome(
    outcome: Result<AppendOutcome, WalError>,
    local_term: u64,
    len: nat,
)
    requires
        len < u64::MAX,
    ensures
        append_answer(outcome, local_term, len) matches ResponseView::AppendEntriesAck {
            term,
            success,
            match_index,
            conflict_index,
        } && {
            &&& term == local_term
            &&& match outcome {
                Ok(AppendOutcome::Accepted { match_index: held }) => success && match_index == held,
                Ok(AppendOutcome::Conflict { conflict_index: hint }) => !success && conflict_index
                    == hint,
                Err(_) => !success && conflict_index == len + 1,
            }
        },
{
}

/// The leader believes an acknowledgement of its own term: the peer then holds at least
/// as much as it said, and the next message starts right after what it holds. A report
/// of less than is known changes nothing.
pub proof fn law_acknowledgement_is_believed(
    node: NodeView,
    peer: Seq<char>,
    term: u64,
    match_index: u64,
    conflict_index: u64,
)
    requires
        node.role == Role::Leader,
        term <= node.state.current_term,
        match_index < u64::MAX,
    ensures
        ({
            let response = ResponseView::AppendEntriesAck {
                term,
                success: true,
                match_index,
                conflict_index,
            };
            let after = node.answered(peer, node.state.current_term, response);
            let held = get_or(node.match_index, peer, 0);
            &&& node.ack_step(node.state.current_term, response) == AckStep::Recount
            &&& match_index > held ==> get_or(after.match_index, peer, 0) == match_index
                && get_or(after.next_index, peer, 1) == match_index + 1
            &&& match_index <= held ==> after == node
            &&& after.state == node.state
            &&& after.role == node.role
            &&& after.leader_id == node.leader_id
            &&& same_data(after, node)
            &&& after.replicating == node.replicating
            &&& after.unreachable == node.unreachable
        }),
{
}

/// A refusal of the leader's own term moves the peer's cursor to where the peer asked,
/// but not before the first entry, and takes back nothing that was acknowledged.
pub proof fn law_refusal_moves_the_cursor(
    node: NodeView,
    peer: Seq<char>,
    term: u64,
    match_index: u64,
    conflict_index: u64,
)
    requires
        node.role == Role::Leader,
        term <= node.state.current_term,
    ensures
        ({
            let response = ResponseView::AppendEntriesAck {
                term,
                success: false,
                match_index,
                conflict_index,
            };
            let after = node.answered(peer, node.state.current_term, response);
            let next = get_or(after.next_index, peer, 1);
            &&& conflict_index >= 1 ==> next == conflict_index
            &&& conflict_index == 0 ==> next == 1
            &&& node.ack_step(node.state.current_term, response) == (AckStep::BackedUp { to: next })
            &&& after.match_index == node.match_index
            &&& after.state == node.state
            &&& after.role == node.role
            &&& after.leader_id == node.leader_id
            &&& same_data(after, node)
            &&& after.replicating == node.replicating
            &&& after.unreachable == node.unreachable
        }),
{
}

/// What one peer answers says nothing about another.
pub proof fn law_answers_concern_their_sender_alone(
    node: NodeView,
    peer: Seq<char>,
    other: Seq<char>,
    sent_term: u64,
    response: ResponseView,
)
    requires
        other != peer,
    ensures
        ({
            let after = node.answered(peer, sent_term, response);
            &&& get_or(after.match_index, other, 0) == get_or(node.match_index, other, 0)
            &&& get_or(after.next_index, other, 1) == get_or(node.next_index, other, 1)
        }),
{
}

/// An answer that carries a newer term ends the leadership, whatever else it says; one
/// to a message of another term, or to a node that leads no longer, is ignored, and so
/// is anything that is no acknowledgement.
pub proof fn law_answer_of_another_term_is_no_acknowledgement(
    node: NodeView,
    peer: Seq<char>,
    sent_term: u64,
    response: ResponseView,
)
    ensures
        response matches ResponseView::AppendEntriesAck { term, .. } ==> {
            &&& term > node.state.current_term ==> {
                &&& node.ack_step(sent_term, response) == AckStep::SteppedDown
                &&& node.answered(peer, sent_term, response).state.current_term == term
                &&& node.answered(peer, sent_term, response).state.voted_for is None
                &&& node.answered(peer, sent_term, response).role == Role::Follower
                &&& same_data(node.answered(peer, sent_term, response), node)
                &&& same_books(node.answered(peer, sent_term, response), node)
            }
            &&& term <= node.state.current_term && (node.role != Role::Leader || sent_term
                != node.state.current_term) ==> {
                &&& node.ack_step(sent_term, response) == AckStep::Ignore
                &&& node.answered(peer, sent_term, response) == node
            }
        },
        !(response is AppendEntriesAck) ==> {
            &&& node.ack_step(sent_term, response) == AckStep::Ignore
            &&& node.answered(peer, sent_term, response) == node
        },
{
}

/// A peer that was claimed cannot be claimed again until it is released, and then it can;
/// what happens to one peer does not matter to another, and nothing else changes.
pub proof fn law_one_round_at_a_time(node: NodeView, peer: Seq<char>, other: Seq<char>)
    ensures
        !node.claiming(peer).is_free(peer),
        node.releasing(peer).is_free(peer),
        node.claiming(peer).releasing(peer).is_free(peer),
        other != peer ==> node.claiming(peer).is_free(other) == node.is_free(other),
        other != peer ==> node.releasing(peer).is_free(other) == node.is_free(other),
        node.is_free(peer) ==> node.claiming(peer).releasing(peer) == node,
        same_data(node.claiming(peer), node),
        node.claiming(peer).state == node.state,
        node.claiming(peer).role == node.role,
        node.claiming(peer).leader_id == node.leader_id,
        node.claiming(peer).next_index == node.next_index,
        node.claiming(peer).match_index == node.match_index,
        node.claiming(peer).unreachable == node.unreachable,
        !node.is_free(peer) ==> node.releasing(peer).claiming(peer) == node,
{
    let there_and_back = node.claiming(peer).releasing(peer);
    if node.is_free(peer) {
        assert(there_and_back.replicating =~= node.replicating);
    } else {
        assert(node.releasing(peer).claiming(peer).replicating =~= node.replicating);
    }
}

/// A silent peer is news once, until it answers, and its answer is news once, until it is
/// silent again. What happens to one peer does not matter to another, and nothing else
/// changes.
pub proof fn law_silence_is_news_once(node: NodeView, peer: Seq<char>, other: Seq<char>)
    ensures
        node.missing(peer).is_silent(peer),
        !node.reaching(peer).is_silent(peer),
        node.missing(peer).reaching(peer).missing(peer).is_silent(peer),
        other != peer ==> node.missing(peer).is_silent(other) == node.is_silent(other),
        other != peer ==> node.reaching(peer).is_silent(other) == node.is_silent(other),
        !node.is_silent(peer) ==> node.missing(peer).reaching(peer) == node,
        node.is_silent(peer) ==> node.reaching(peer).missing(peer) == node,
{
    if node.is_silent(peer) {
        assert(node.reaching(peer).missing(peer).unreachable =~= node.unreachable);
    } else {
        assert(node.missing(peer).reaching(peer).unreachable =~= node.unreachable);
    }
}

/// A message carries the leader's term, name and commit index. It starts where the
/// peer's cursor is, holds the leader's entries from there on, all of them or the first
/// 64, and shows the term of the entry before, which is zero before the first.
pub proof fn law_message_starts_at_the_cursor(
    node: NodeView,
    peer: Seq<char>,
    log: Seq<LogEntryView>,
    next: int,
)
    requires
        next == get_or(node.next_index, peer, 1),
        1 <= next <= log.len() + 1,
    ensures
        node.append_message(peer, log) matches CommandView::AppendEntries {
            term,
            leader_id,
            prev_log_index,
            prev_log_term,
            entries,
            leader_commit,
        } && {
            &&& term == node.state.current_term
            &&& leader_id == node.node_id
            &&& leader_commit == node.state.commit_index
            &&& prev_log_index == next - 1
            &&& next == 1 ==> prev_log_term == 0
            &&& next > 1 ==> prev_log_term == log[next - 2].term
            &&& log.len() - next + 1 <= 64 ==> entries.len() == log.len() - next + 1
            &&& log.len() - next + 1 > 64 ==> entries.len() == 64
            &&& forall|i: int| 0 <= i < entries.len() ==> entries[i] == log[next - 1 + i]
        },
{
}

/// A peer whose cursor is past the end of the log, or before its first entry, gets an empty message that still carries the leader's term, name and
/// commit index.
pub proof fn law_message_past_the_end_is_a_heartbeat(
    node: NodeView,
    peer: Seq<char>,
    log: Seq<LogEntryView>,
    next: int,
)
    requires
        next == get_or(node.next_index, peer, 1),
        next == 0 || next > log.len(),
    ensures
        node.append_message(peer, log) matches CommandView::AppendEntries {
            term,
            leader_id,
            prev_log_index,
            prev_log_term,
            entries,
            leader_commit,
        } && {
            &&& term == node.state.current_term
            &&& leader_id == node.node_id
            &&& leader_commit == node.state.commit_index
            &&& entries.len() == 0
            &&& next == 0 ==> prev_log_index == 0
            &&& next > 0 ==> prev_log_index == next - 1
            &&& next == 0 || next > log.len() + 1 ==> prev_log_term == 0
        },
{
}

/// A leader has a message for every peer at any time, if only a heartbeat; no other node
/// has one.
pub proof fn law_leader_always_has_a_message(
    node: NodeView,
    peer: Seq<char>,
    log: Seq<LogEntryView>,
)
    ensures
        node.role == Role::Leader ==> node.message_for(peer, log) == Some(
            node.append_message(peer, log),
        ),
        node.role != Role::Leader ==> node.message_for(peer, log) is None,
{
}

/// The first message of a new leader to any peer is empty and shows the end of the
/// leader's log.
pub proof fn law_new_leader_asks_from_its_end(
    node: NodeView,
    peer: Seq<char>,
    log: Seq<LogEntryView>,
)
    requires
        node.peers.contains(peer),
        log.len() < u64::MAX,
    ensures
        node.leading(log.len() as int).append_message(peer, log)
            matches CommandView::AppendEntries { prev_log_index, prev_log_term, entries, .. } && {
            &&& prev_log_index == log.len()
            &&& log.len() > 0 ==> prev_log_term == log[log.len() - 1].term
            &&& log.len() == 0 ==> prev_log_term == 0
            &&& entries.len() == 0
        },
{
}

/// A peer that acknowledges one message gets, in the next, the entries right after it.
pub proof fn law_messages_join_up(
    node: NodeView,
    peer: Seq<char>,
    log: Seq<LogEntryView>,
    next: u64,
)
    requires
        next == get_or(node.next_index, peer, 1),
        1 <= next <= log.len() < u64::MAX,
        get_or(node.match_index, peer, 0) < next,
        node.role == Role::Leader,
    ensures
        node.append_message(peer, log) matches CommandView::AppendEntries {
            prev_log_index,
            entries,
            ..
        } && {
            let upto = (prev_log_index + entries.len()) as u64;
            let after = node.answered(
                peer,
                node.state.current_term,
                ResponseView::AppendEntriesAck {
                    term: node.state.current_term,
                    success: true,
                    match_index: upto,
                    conflict_index: 0,
                },
            );
            after.append_message(peer, log) matches CommandView::AppendEntries {
                prev_log_index: then,
                entries: more,
                ..
            } && {
                &&& then == prev_log_index + entries.len()
                &&& then > prev_log_index
                &&& then < log.len() ==> more.len() > 0 && more[0] == log[then as int]
                &&& then == log.len() ==> more.len() == 0
            }
        },
{
}

} // verus!
