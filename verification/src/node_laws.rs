//! What holds of a node, and of a cluster of them, whatever happens: terms and
//! commit indexes never go back, no term sees two votes of one node or two
//! winners, and the state machine is always a replay of the committed prefix.

use crate::kv::{law_replay_composes, replayed};
use crate::message::{CommandView, LogEntryView, ResponseView};
use crate::node::{
    copies,
    get_or,
    min,
    routed,
    NodeView,
    Role,
    RouteView,
    MAX_ENTRIES_PER_APPEND,
};
use crate::quorum::{
    count_at_least,
    is_reached_by,
    lemma_reached_by_exists,
    majority_of,
};
use crate::raft_laws::{follows, law_agreeing_entries_stay, lemma_taken, share_history};
use crate::raft_log::{
    all_written,
    append_outcome,
    at_least_as_up_to_date,
    consistent,
    first_new,
    last_term,
    lemma_first_new,
    lemma_first_too_long,
    lemma_op_count,
    log_after,
    matches_at,
    planned_ops,
    term_at,
    LogState,
};
use crate::state::RaftStateView;
use vstd::prelude::*;

verus! {

/// Something that happens to a node and can change its persistent state.
pub enum Event {
    /// A message or an acknowledgement that carries a term.
    Heard { term: u64 },
    /// A vote request.
    VoteAsked {
        candidate: Seq<char>,
        term: u64,
        candidate_last: (u64, u64),
        our_last: (u64, u64),
    },
    /// The node's own election.
    Campaign,
    /// The commit index moves to `index` of `log`, by either commit rule.
    Commit { index: u64, log: Seq<LogEntryView> },
    /// The node dies and comes back with what it had persisted.
    Restart,
}

/// A node that has come back: a follower that has applied nothing.
pub open spec fn restarted(node: NodeView) -> NodeView {
    NodeView {
        db: Map::empty(),
        role: Role::Follower,
        leader_id: None,
        last_applied: 0,
        next_index: Map::empty(),
        match_index: Map::empty(),
        replicating: Set::empty(),
        unreachable: Set::empty(),
        ..node
    }
}

/// The node after the event.
pub open spec fn after_event(node: NodeView, event: Event) -> NodeView {
    match event {
        Event::Heard { term } => node.adopting(term),
        Event::VoteAsked { candidate, term, candidate_last, our_last } => node.voting(
            candidate,
            term,
            candidate_last,
            our_last,
        ),
        Event::Campaign => if node.state.current_term < u64::MAX {
            node.campaigning()
        } else {
            node
        },
        Event::Commit { index, log } => node.committing(index, log),
        Event::Restart => restarted(node),
    }
}

/// The node after the first `n` events.
pub open spec fn after_events(node: NodeView, events: Seq<Event>, n: int) -> NodeView
    decreases n,
{
    if n <= 0 {
        node
    } else {
        after_event(after_events(node, events, n - 1), events[n - 1])
    }
}

/// Whether the event is a vote request for `candidate` in `term` that the node
/// grants.
pub open spec fn grants_in(node: NodeView, event: Event, candidate: Seq<char>, term: u64) -> bool {
    event matches Event::VoteAsked { candidate: c, term: t, candidate_last, our_last } && {
        &&& c == candidate
        &&& t == term
        &&& node.grants(c, t, candidate_last, our_last)
    }
}

/// A later state of the same node: the term has not gone back, and a vote given
/// in a term that is still current stands.
pub open spec fn keeps_promises(before: RaftStateView, after: RaftStateView) -> bool {
    &&& before.current_term <= after.current_term
    &&& before.current_term == after.current_term && before.voted_for is Some ==> after.voted_for
        == before.voted_for
}

/// The term never goes back, and a vote stands for as long as its term does,
/// through any number of events, restarts included.
pub proof fn law_promises_are_kept(node: NodeView, events: Seq<Event>, i: int, j: int)
    requires
        0 <= i <= j <= events.len(),
    ensures
        keeps_promises(
            after_events(node, events, i).state,
            after_events(node, events, j).state,
        ),
    decreases j - i,
{
    if i < j {
        law_promises_are_kept(node, events, i, j - 1);
    }
}

/// A node grants its vote to one candidate per term: whatever happens in between,
/// restarts included, two requests that it grants in one term are of the same
/// candidate.
pub proof fn law_one_vote_per_term(
    node: NodeView,
    events: Seq<Event>,
    i: int,
    j: int,
    a: Seq<char>,
    b: Seq<char>,
    term: u64,
)
    requires
        0 <= i < j < events.len(),
        grants_in(after_events(node, events, i), events[i], a, term),
        grants_in(after_events(node, events, j), events[j], b, term),
    ensures
        a == b,
{
    law_promises_are_kept(node, events, i + 1, j);
    let voted = after_events(node, events, i + 1).state;
    assert(voted.voted_for == Some(a) && voted.current_term == term);
}

/// A node that campaigned in a term votes for no other candidate in it.
pub proof fn law_candidate_votes_for_itself(
    node: NodeView,
    events: Seq<Event>,
    i: int,
    j: int,
    b: Seq<char>,
    term: u64,
)
    requires
        0 <= i < j < events.len(),
        events[i] is Campaign,
        after_events(node, events, i).state.current_term + 1 == term,
        grants_in(after_events(node, events, j), events[j], b, term),
    ensures
        b == node.node_id,
{
    lemma_node_id_stays(node, events, i);
    law_promises_are_kept(node, events, i + 1, j);
    let voted = after_events(node, events, i + 1).state;
    assert(voted.voted_for == Some(node.node_id) && voted.current_term == term);
}

proof fn lemma_node_id_stays(node: NodeView, events: Seq<Event>, n: int)
    ensures
        after_events(node, events, n).node_id == node.node_id,
    decreases n,
{
    if n > 0 {
        lemma_node_id_stays(node, events, n - 1);
    }
}

/// A granted vote is for a candidate whose log is at least as complete as the
/// voter's, and whose term is the voter's from then on.
pub proof fn law_granted_vote_respects_the_restriction(
    node: NodeView,
    candidate: Seq<char>,
    term: u64,
    candidate_last: (u64, u64),
    our_last: (u64, u64),
)
    requires
        node.grants(candidate, term, candidate_last, our_last),
    ensures
        at_least_as_up_to_date(candidate_last.0, candidate_last.1, our_last.0, our_last.1),
        node.voting(candidate, term, candidate_last, our_last).state.current_term == term,
        node.voting(candidate, term, candidate_last, our_last).state.voted_for == Some(candidate),
        term >= node.state.current_term,
{
}

/// A retried request from the same candidate does not lose the vote, as long as
/// the term stands and the log it is measured against does.
pub proof fn law_retried_request_keeps_the_vote(
    node: NodeView,
    candidate: Seq<char>,
    term: u64,
    candidate_last: (u64, u64),
    our_last: (u64, u64),
)
    requires
        node.grants(candidate, term, candidate_last, our_last),
    ensures
        ({
            let voted = node.voting(candidate, term, candidate_last, our_last);
            &&& voted.grants(candidate, term, candidate_last, our_last)
            &&& voted.voting(candidate, term, candidate_last, our_last) == voted
        }),
{
    let voted = node.voting(candidate, term, candidate_last, our_last);
    assert(voted.voting(candidate, term, candidate_last, our_last) =~= voted);
}

/// Any two majorities of the same nodes have a node in common.
pub proof fn law_majorities_meet<A>(nodes: Set<A>, a: Set<A>, b: Set<A>, peers: nat)
    requires
        nodes.finite(),
        nodes.len() == peers + 1,
        a.subset_of(nodes),
        b.subset_of(nodes),
        a.len() >= majority_of(peers),
        b.len() >= majority_of(peers),
    ensures
        exists|n: A| a.contains(n) && b.contains(n),
{
    vstd::set_lib::lemma_set_subset_finite(nodes, a);
    vstd::set_lib::lemma_set_subset_finite(nodes, b);
    if !(exists|n: A| a.contains(n) && b.contains(n)) {
        assert(a.disjoint(b));
        vstd::set_lib::lemma_set_disjoint_lens(a, b);
        assert((a + b).subset_of(nodes));
        vstd::set_lib::lemma_len_subset(a + b, nodes);
    }
}

/// The state machine holds exactly what the first `last_applied` entries of the
/// log put there, and they are committed.
pub open spec fn mirrors(node: NodeView, log: Seq<LogEntryView>) -> bool {
    &&& node.last_applied <= log.len()
    &&& node.last_applied <= node.state.commit_index
    &&& node.db == replayed(log.take(node.last_applied as int))
}

/// Applying keeps the state machine a replay of the committed prefix.
pub proof fn law_applying_keeps_the_mirror(node: NodeView, log: Seq<LogEntryView>)
    requires
        mirrors(node, log),
    ensures
        mirrors(node.applying(log), log),
        node.applying(log).last_applied == min(node.state.commit_index as int, log.len() as int),
{
    let target = min(node.state.commit_index as int, log.len() as int);
    let at = node.last_applied as int;
    if at < target {
        assert(log.take(target) =~= log.take(at) + log.subrange(at, target));
        law_replay_composes(Map::empty(), log.take(at), log.subrange(at, target));
    }
}

/// Both commit rules keep the state machine a replay of the committed prefix, and
/// the commit index never goes back.
pub proof fn law_committing_keeps_the_mirror(node: NodeView, index: u64, log: Seq<LogEntryView>)
    requires
        mirrors(node, log),
    ensures
        mirrors(node.committing(index, log), log),
        mirrors(node.counting(log), log),
        node.committing(index, log).state.commit_index >= node.state.commit_index,
        node.counting(log).state.commit_index >= node.state.commit_index,
{
    lemma_committing_keeps_the_mirror(node, index, log);
    lemma_committing_keeps_the_mirror(node, node.majority_index(log), log);
}

proof fn lemma_committing_keeps_the_mirror(node: NodeView, index: u64, log: Seq<LogEntryView>)
    requires
        mirrors(node, log),
    ensures
        mirrors(node.committing(index, log), log),
        node.committing(index, log).state.commit_index >= node.state.commit_index,
{
    let target = min(index as int, log.len() as int);
    if target > node.state.commit_index {
        let moved = NodeView {
            state: RaftStateView { commit_index: target as u64, ..node.state },
            ..node
        };
        assert(mirrors(moved, log));
        law_applying_keeps_the_mirror(moved, log);
    }
}

/// A change of the log that leaves the applied entries alone leaves the state
/// machine a replay of it: the uncommitted tail can be discarded.
pub proof fn law_mirror_ignores_the_tail(
    node: NodeView,
    log: Seq<LogEntryView>,
    changed: Seq<LogEntryView>,
)
    requires
        mirrors(node, log),
        node.last_applied <= changed.len(),
        changed.take(node.last_applied as int) == log.take(node.last_applied as int),
    ensures
        mirrors(node, changed),
{
}

/// What the node regards as committed is in its log as it is in the leader's.
pub open spec fn agrees_on_committed(
    node: NodeView,
    log: Seq<LogEntryView>,
    leader: Seq<LogEntryView>,
) -> bool {
    let commit = node.state.commit_index as int;
    &&& commit <= log.len()
    &&& commit <= leader.len()
    &&& log.take(commit) == leader.take(commit)
}

/// No entry at or below the commit index is ever truncated by a leader that has what
/// is committed: whatever piece of its log it sends, however much of that reaches the
/// disk, and whatever commit index comes with it, the committed entries stay, and what
/// is newly committed is the leader's too, so that the next message finds the same.
/// The state machine stays a replay of what is committed.
pub proof fn law_taking_entries_keeps_what_is_committed(
    node: NodeView,
    log: LogState,
    leader: Seq<LogEntryView>,
    prev_index: int,
    upto: int,
    payloads: Seq<Seq<u8>>,
    performed: int,
    leader_commit: u64,
)
    requires
        consistent(leader),
        leader.len() <= u64::MAX,
        log.entries.len() == log.offsets.len(),
        share_history(log.entries, leader),
        agrees_on_committed(node, log.entries, leader),
        0 <= prev_index <= upto <= leader.len(),
        payloads.len() == upto - prev_index,
        0 <= performed <= planned_ops(
            log,
            prev_index,
            term_at(leader, prev_index)->0,
            leader.subrange(prev_index, upto),
            payloads,
        ).len(),
    ensures
        ({
            let prev_term = term_at(leader, prev_index)->0;
            let entries = leader.subrange(prev_index, upto);
            let after = log_after(log, prev_index, prev_term, entries, payloads, performed);
            let outcome = append_outcome(log, prev_index, prev_term, entries, payloads, performed);
            let then = node.finishing(outcome, leader_commit, after.entries);
            let commit = node.state.commit_index as int;
            &&& commit <= after.entries.len()
            &&& after.entries.take(commit) == log.entries.take(commit)
            &&& then.state.commit_index >= commit
            &&& agrees_on_committed(then, after.entries, leader)
            &&& share_history(after.entries, leader)
            &&& mirrors(node, log.entries) ==> mirrors(then, after.entries)
        }),
{
    let prev_term = term_at(leader, prev_index)->0;
    let entries = leader.subrange(prev_index, upto);
    let after = log_after(log, prev_index, prev_term, entries, payloads, performed);
    let outcome = append_outcome(log, prev_index, prev_term, entries, payloads, performed);
    let commit = node.state.commit_index as int;
    if matches_at(log.entries, prev_index, prev_term) {
        lemma_op_count(log, entries, payloads);
        law_agreeing_entries_stay(log, leader, commit, prev_index, upto, payloads, performed);
        let taken = lemma_taken(log, leader, prev_index, upto, payloads, performed);
        if after.entries != log.entries {
            assert forall|i: int|
                1 <= i <= after.entries.len() && i <= leader.len() && #[trigger] term_at(
                    after.entries,
                    i,
                ) == term_at(leader, i) implies after.entries.take(i) == leader.take(i) by {
                assert(leader.take(after.entries.len() as int).take(i) =~= leader.take(i));
            }
        }
        if mirrors(node, log.entries) {
            let applied = node.last_applied as int;
            assert(after.entries.take(commit).take(applied) =~= after.entries.take(applied));
            assert(log.entries.take(commit).take(applied) =~= log.entries.take(applied));
        }
        if outcome is Ok {
            lemma_first_new(log.entries, entries, 0);
            lemma_first_too_long(payloads, first_new(log.entries, entries, 0));
            assert(all_written(log, entries, payloads, performed));
            let checked = min(leader_commit as int, upto);
            assert(after.entries.take(upto).take(checked) =~= after.entries.take(checked));
            assert(leader.take(upto).take(checked) =~= leader.take(checked));
            if mirrors(node, log.entries) {
                law_committing_keeps_the_mirror(node, checked as u64, after.entries);
            }
        }
    }
}

/// A node that starts with the state it had persisted and restores from its log
/// serves exactly the committed prefix, as far as the log has it.
pub proof fn law_restart_replays_the_committed_prefix(node: NodeView, log: Seq<LogEntryView>)
    requires
        log.len() <= u64::MAX,
    ensures
        ({
            let clamped = NodeView {
                state: RaftStateView {
                    commit_index: min(
                        node.state.commit_index as int,
                        log.len() as int,
                    ) as u64,
                    ..node.state
                },
                ..restarted(node)
            };
            let ready = clamped.applying(log);
            &&& mirrors(ready, log)
            &&& ready.last_applied == ready.state.commit_index
            &&& ready.state.commit_index == min(node.state.commit_index as int, log.len() as int)
            &&& ready.state.current_term == node.state.current_term
            &&& ready.state.voted_for == node.state.voted_for
        }),
{
    let clamped = NodeView {
        state: RaftStateView {
            commit_index: min(node.state.commit_index as int, log.len() as int) as u64,
            ..node.state
        },
        ..restarted(node)
    };
    assert(log.take(0) =~= Seq::empty());
    assert(mirrors(clamped, log));
    law_applying_keeps_the_mirror(clamped, log);
}

/// What a leader commits by counting is held by a majority of the cluster, as far
/// as acknowledged, and its last entry is of the leader's own term.
pub proof fn law_leader_commits_what_a_majority_holds(node: NodeView, log: Seq<LogEntryView>)
    requires
        log.len() < u64::MAX,
        node.counting(log).state.commit_index > node.state.commit_index,
    ensures
        ({
            let index = node.counting(log).state.commit_index;
            &&& index <= log.len()
            &&& count_at_least(
                copies(node.peers, node.match_index, log.len() as u64),
                index as int,
            ) >= majority_of(node.peers.len())
            &&& term_at(log, index as int) == Some(node.state.current_term)
        }),
{
    lemma_reached_by_exists(
        copies(node.peers, node.match_index, log.len() as u64),
        majority_of(node.peers.len()),
    );
}

/// A node on its own is a cluster of one: as the leader, with an entry of its own
/// term at the end of its log, it commits everything at once.
pub proof fn law_single_node_commits_alone(node: NodeView, log: Seq<LogEntryView>)
    requires
        node.role == Role::Leader,
        node.peers.len() == 0,
        log.len() < u64::MAX,
        last_term(log) == node.state.current_term,
        log.len() > 0,
        node.state.commit_index <= log.len(),
    ensures
        node.counting(log).state.commit_index == log.len(),
{
    let held = copies(node.peers, node.match_index, log.len() as u64);
    assert(held =~= seq![log.len() as u64]);
    reveal_with_fuel(count_at_least, 3);
    assert(held.drop_last() =~= Seq::empty());
    assert(is_reached_by(held, 1, log.len() as u64));
    crate::quorum::lemma_reached_by_unique(held, 1, log.len() as u64);
}

/// A leader never believes that a peer holds less than it has acknowledged, on a
/// reordered or duplicated acknowledgement or on a refusal.
pub proof fn law_acknowledgements_never_go_back(
    node: NodeView,
    peer: Seq<char>,
    index: u64,
    other: Seq<char>,
)
    requires
        index < u64::MAX,
    ensures
        get_or(node.acknowledged(peer, index).match_index, other, 0) >= get_or(
            node.match_index,
            other,
            0,
        ),
        get_or(node.acknowledged(peer, index).match_index, peer, 0) >= index,
        node.backing_up(peer, index).match_index == node.match_index,
{
}

/// The message for a peer is a piece of the leader's log, in order and at most
/// [`MAX_ENTRIES_PER_APPEND`] long, with the index and term of the entry just
/// before it; a peer that is caught up gets an empty one.
pub proof fn law_message_is_a_piece_of_the_log(
    node: NodeView,
    peer: Seq<char>,
    log: Seq<LogEntryView>,
)
    requires
        consistent(log),
        1 <= get_or(node.next_index, peer, 1) <= log.len() + 1,
    ensures
        node.append_message(peer, log) matches CommandView::AppendEntries {
            term,
            leader_id,
            prev_log_index,
            prev_log_term,
            entries,
            leader_commit,
        } && {
            &&& term == node.state.current_term
            &&& leader_id == node.node_id
            &&& leader_commit == node.state.commit_index
            &&& prev_log_index + 1 == get_or(node.next_index, peer, 1)
            &&& matches_at(log, prev_log_index as int, prev_log_term)
            &&& entries.len() == min(MAX_ENTRIES_PER_APPEND as int, log.len() - prev_log_index)
            &&& entries == log.subrange(
                prev_log_index as int,
                prev_log_index + entries.len(),
            )
            &&& follows(entries, prev_log_index as int, prev_log_term)
        },
{
    let next = get_or(node.next_index, peer, 1);
    let prev = next - 1;
    let end = min(prev + MAX_ENTRIES_PER_APPEND, log.len() as int);
    let entries = log.subrange(prev, end);
    if next > log.len() {
        assert(Seq::<LogEntryView>::empty() =~= entries);
    }
    assert forall|i: int| 0 <= i < entries.len() implies (#[trigger] entries[i]).index == prev + 1
        + i by {
        assert(entries[i] == log[prev + i]);
    }
    assert forall|i: int| 0 <= i < entries.len() implies term_at(log, prev)->0 <= (
    #[trigger] entries[i]).term by {
        assert(entries[i] == log[prev + i]);
        if prev > 0 {
            assert(log[prev - 1].term <= log[prev + i].term);
        }
    }
    assert forall|i: int, j: int| 0 <= i <= j < entries.len() implies (#[trigger] entries[i]).term
        <= (#[trigger] entries[j]).term by {
        assert(entries[i] == log[prev + i] && entries[j] == log[prev + j]);
    }
}

/// Once a peer has acknowledged a message, the next one starts right after it, so
/// a peer that fell behind catches up batch by batch.
pub proof fn law_catching_up_makes_progress(node: NodeView, peer: Seq<char>, upto: u64)
    requires
        upto < u64::MAX,
        upto > get_or(node.match_index, peer, 0),
    ensures
        get_or(node.acknowledged(peer, upto).next_index, peer, 1) == upto + 1,
{
}

/// A node that is not the leader answers neither reads nor writes; it says who
/// leads, if it knows.
pub proof fn law_only_the_leader_serves(node: NodeView, command: CommandView)
    requires
        node.role != Role::Leader,
        command is Put || command is Get,
    ensures
        routed(node, command) == RouteView::Reply(
            ResponseView::NotLeader { leader: node.leader_id },
        ),
{
}

/// What the leader has committed is what a read through it gives: the value that
/// the last committed write of the key put there.
pub proof fn law_read_gives_the_last_committed_write(
    node: NodeView,
    log: Seq<LogEntryView>,
    key: Seq<char>,
)
    requires
        node.role == Role::Leader,
        mirrors(node, log),
        node.last_applied == node.state.commit_index,
    ensures
        ({
            let db = replayed(log.take(node.state.commit_index as int));
            routed(node, CommandView::Get { key }) == RouteView::Reply(
                if db.contains_key(key) {
                    ResponseView::Value(Some(db[key]))
                } else {
                    ResponseView::Error("Key not found"@)
                },
            )
        }),
{
}

} // verus!
