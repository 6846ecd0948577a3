//! What a node does in an election: whose term and whose vote it takes, when it
//! stands, and when it has won.

use crate::message::{CommandView, LogEntryView, Response};
use crate::node::{
    get_or,
    granted_votes,
    must_save,
    started,
    vote_given,
    votes_won,
    ElectionEnd,
    NodeView,
    Role,
};
use crate::raft_log::{at_least_as_up_to_date, last_term};
use crate::state::RaftStateView;
use vstd::prelude::*;

verus! {

/// The two are the same node with the same data: they differ at most in term, vote,
/// role and in whom they take for the leader.
pub open spec fn same_data(a: NodeView, b: NodeView) -> bool {
    &&& a.node_id == b.node_id
    &&& a.peers == b.peers
    &&& a.db == b.db
    &&& a.last_applied == b.last_applied
    &&& a.state.commit_index == b.state.commit_index
}

/// The two keep the same books on their peers.
pub open spec fn same_books(a: NodeView, b: NodeView) -> bool {
    &&& a.next_index == b.next_index
    &&& a.match_index == b.match_index
    &&& a.replicating == b.replicating
    &&& a.unreachable == b.unreachable
}

/// A node starts as a follower that knows of no leader, holds no data and has applied
/// nothing, in the term, with the vote and with the commit index that it had persisted. It
/// believes nothing about its peers yet.
pub proof fn law_node_starts_as_a_follower(
    node_id: Seq<char>,
    peers: Seq<Seq<char>>,
    state: RaftStateView,
    peer: Seq<char>,
)
    ensures
        ({
            let node = started(node_id, peers, state);
            &&& node.node_id == node_id
            &&& node.peers == peers
            &&& node.state == state
            &&& node.role == Role::Follower
            &&& node.leader_id is None
            &&& node.last_applied == 0
            &&& node.db == Map::<Seq<char>, Seq<u8>>::empty()
            &&& get_or(node.next_index, peer, 1) == 1
            &&& get_or(node.match_index, peer, 0) == 0
            &&& node.is_free(peer)
            &&& !node.is_silent(peer)
        }),
{
}

/// A newer term is adopted, with no vote in it yet, and ends any candidacy or
/// leadership; a term that is not newer changes nothing. Nothing else is touched.
pub proof fn law_newer_term_is_adopted(node: NodeView, term: u64)
    ensures
        term > node.state.current_term ==> {
            &&& node.adopting(term).state.current_term == term
            &&& node.adopting(term).state.voted_for is None
            &&& node.adopting(term).role == Role::Follower
        },
        term <= node.state.current_term ==> node.adopting(term) == node,
        node.adopting(term).leader_id == node.leader_id,
        same_data(node.adopting(term), node),
        same_books(node.adopting(term), node),
{
}

/// After any two messages the node's term is the greatest it has seen, in whichever
/// order they came.
pub proof fn law_term_is_the_greatest_seen(node: NodeView, a: u64, b: u64)
    ensures
        ({
            let term = node.adopting(a).adopting(b).state.current_term;
            &&& term >= node.state.current_term && term >= a && term >= b
            &&& term == node.state.current_term || term == a || term == b
            &&& node.adopting(b).adopting(a).state.current_term == term
        }),
{
}

/// A vote that is due is given: if the request's term is not older than the voter's,
/// the voter has promised that term to nobody else, and the candidate's log ends in a
/// later term, or in the same term and is at least as long, then the vote is granted
/// and recorded.
pub proof fn law_eligible_candidate_gets_the_vote(
    node: NodeView,
    candidate: Seq<char>,
    term: u64,
    candidate_last: (u64, u64),
    our_last: (u64, u64),
)
    requires
        term >= node.state.current_term,
        term == node.state.current_term ==> node.state.voted_for is None || node.state.voted_for
            == Some(candidate),
        candidate_last.0 > our_last.0 || candidate_last.0 == our_last.0 && candidate_last.1
            >= our_last.1,
    ensures
        node.grants(candidate, term, candidate_last, our_last),
        node.voting(candidate, term, candidate_last, our_last).state.current_term == term,
        node.voting(candidate, term, candidate_last, our_last).state.voted_for == Some(candidate),
{
}

/// A vote that is not due is refused: the request is of an older term, or the term is
/// promised to another candidate, or the candidate's log ends in an earlier term, or in
/// the same term and is shorter. What was promised before stands, unless the request
/// brings a newer term, which is then the voter's, with no vote in it.
pub proof fn law_ineligible_candidate_is_refused(
    node: NodeView,
    candidate: Seq<char>,
    term: u64,
    candidate_last: (u64, u64),
    our_last: (u64, u64),
)
    requires
        ({
            ||| term < node.state.current_term
            ||| term == node.state.current_term && node.state.voted_for is Some
                && node.state.voted_for != Some(candidate)
            ||| candidate_last.0 < our_last.0
            ||| candidate_last.0 == our_last.0 && candidate_last.1 < our_last.1
        }),
    ensures
        !node.grants(candidate, term, candidate_last, our_last),
        ({
            let after = node.voting(candidate, term, candidate_last, our_last);
            &&& term <= node.state.current_term ==> after.state == node.state && after.role
                == node.role
            &&& term > node.state.current_term ==> after.state.current_term == term
                && after.state.voted_for is None && after.role == Role::Follower
        }),
{
}

/// Voting changes a node's term, vote and role, and nothing else; a voter in its own
/// term keeps its role.
pub proof fn law_voting_changes_only_the_vote(
    node: NodeView,
    candidate: Seq<char>,
    term: u64,
    candidate_last: (u64, u64),
    our_last: (u64, u64),
)
    ensures
        ({
            let after = node.voting(candidate, term, candidate_last, our_last);
            &&& same_data(after, node)
            &&& same_books(after, node)
            &&& after.leader_id == node.leader_id
            &&& after.role == (if term > node.state.current_term {
                Role::Follower
            } else {
                node.role
            })
            &&& after.state.current_term == (if term > node.state.current_term {
                term
            } else {
                node.state.current_term
            })
        }),
{
}

/// A log is at least as up to date as another exactly if it ends in a later term, or in
/// the same term and is not shorter.
pub proof fn law_up_to_date_compares_terms_first(
    candidate_term: u64,
    candidate_index: u64,
    our_term: u64,
    our_index: u64,
)
    ensures
        candidate_term > our_term ==> at_least_as_up_to_date(
            candidate_term,
            candidate_index,
            our_term,
            our_index,
        ),
        candidate_term < our_term ==> !at_least_as_up_to_date(
            candidate_term,
            candidate_index,
            our_term,
            our_index,
        ),
        candidate_term == our_term ==> (at_least_as_up_to_date(
            candidate_term,
            candidate_index,
            our_term,
            our_index,
        ) <==> candidate_index >= our_index),
{
}

/// A voter measures a request against the end of its own log: in a term in which it is
/// free to vote, it votes for the candidate exactly if the candidate's log ends in a later
/// term than its own log does, or in the same and is not shorter; an empty log is no
/// obstacle.
pub proof fn law_voter_measures_by_its_own_log(
    node: NodeView,
    candidate: Seq<char>,
    term: u64,
    last_log_index: u64,
    last_log_term: u64,
    log: Seq<LogEntryView>,
)
    requires
        log.len() <= u64::MAX,
    ensures
        ({
            let free = term > node.state.current_term || term == node.state.current_term && (
            node.state.voted_for is None || node.state.voted_for == Some(candidate));
            let complete = log.len() == 0 || last_log_term > log[log.len() - 1].term
                || last_log_term == log[log.len() - 1].term && last_log_index >= log.len();
            let after = node.after_request(candidate, term, last_log_index, last_log_term, log);
            let granted = node.grants_request(
                candidate,
                term,
                last_log_index,
                last_log_term,
                log,
            );
            &&& granted <==> free && complete
            &&& granted ==> after.state.current_term == term && after.state.voted_for == Some(
                candidate,
            )
            &&& !granted && term <= node.state.current_term ==> after == node
            &&& !granted && term > node.state.current_term ==> after.state.current_term == term
                && after.state.voted_for is None
            &&& same_data(after, node)
            &&& same_books(after, node)
            &&& after.leader_id == node.leader_id
        }),
{
}

/// A candidate asks for votes once its own is on disk, and is a follower again if that
/// fails; term and vote stay, and so does everything else.
pub proof fn law_unsaved_candidate_asks_nobody(node: NodeView)
    ensures
        node.asking(true) == node,
        node.asking(false).role == Role::Follower,
        node.asking(false).state == node.state,
        node.asking(false).leader_id == node.leader_id,
        same_data(node.asking(false), node),
        same_books(node.asking(false), node),
{
}

/// A request names its term, its candidate, and where the candidate's log ends.
pub proof fn law_vote_request_shows_the_end_of_the_log(
    node: NodeView,
    term: u64,
    log: Seq<LogEntryView>,
)
    requires
        log.len() <= u64::MAX,
    ensures
        node.vote_request(term, log) matches CommandView::RequestVote {
            term: asked,
            candidate_id,
            last_log_index,
            last_log_term,
        } && {
            &&& asked == term
            &&& candidate_id == node.node_id
            &&& last_log_index == log.len()
            &&& log.len() > 0 ==> last_log_term == log[log.len() - 1].term
            &&& log.len() == 0 ==> last_log_term == 0
        },
{
}

/// A candidate is elected by its equals: a peer that has not reached the new term yet
/// grants the request of a candidate whose log is the peer's, or the peer's and more of
/// the same or later terms.
pub proof fn law_peers_with_no_more_vote_for_the_candidate(
    candidate: NodeView,
    peer: NodeView,
    log: Seq<LogEntryView>,
    more: Seq<LogEntryView>,
)
    requires
        log.len() + more.len() <= u64::MAX,
        candidate.state.current_term < u64::MAX,
        peer.state.current_term <= candidate.state.current_term,
        forall|i: int, j: int|
            0 <= i <= j < (log + more).len() ==> (#[trigger] (log + more)[i]).term <= (
            #[trigger] (log + more)[j]).term,
    ensures
        ({
            let standing = candidate.campaigning();
            standing.vote_request(standing.state.current_term, log + more)
                matches CommandView::RequestVote {
                term,
                candidate_id,
                last_log_index,
                last_log_term,
            } && {
                let ours = (last_term(log), log.len() as u64);
                &&& peer.grants(candidate_id, term, (last_log_term, last_log_index), ours)
                &&& peer.voting(
                    candidate_id,
                    term,
                    (last_log_term, last_log_index),
                    ours,
                ).state.voted_for == Some(candidate.node_id)
            }
        }),
{
    let all = log + more;
    if log.len() > 0 {
        assert(all[log.len() - 1] == log[log.len() - 1]);
        assert(all[log.len() - 1].term <= all[all.len() - 1].term);
    }
}

/// A node stands in the term right after its own, for itself, and forgets nothing.
pub proof fn law_candidacy_opens_the_next_term(node: NodeView)
    requires
        node.state.current_term < u64::MAX,
    ensures
        node.campaigning().role == Role::Candidate,
        node.campaigning().state.current_term == node.state.current_term + 1,
        node.campaigning().state.voted_for == Some(node.node_id),
        node.campaigning().leader_id == node.leader_id,
        same_data(node.campaigning(), node),
        same_books(node.campaigning(), node),
{
}

/// Only a follower's timer fires, and only once it has waited for longer than the
/// timeout; it then stands, and nothing else changes. A timer that has fired would have
/// fired later too.
pub proof fn law_silence_makes_a_candidate(
    node: NodeView,
    elapsed: u128,
    later: u128,
    timeout: u128,
)
    requires
        elapsed <= later,
    ensures
        node.role != Role::Follower ==> !node.times_out(elapsed, timeout),
        elapsed <= timeout ==> !node.times_out(elapsed, timeout),
        node.role == Role::Follower && elapsed > timeout ==> node.times_out(elapsed, timeout),
        node.times_out(elapsed, timeout) ==> node.times_out(later, timeout),
        node.times_out(elapsed, timeout) ==> node.waiting(elapsed, timeout).role
            == Role::Candidate,
        !node.times_out(elapsed, timeout) ==> node.waiting(elapsed, timeout).role == node.role,
        node.waiting(elapsed, timeout).state == node.state,
        node.waiting(elapsed, timeout).leader_id == node.leader_id,
        same_data(node.waiting(elapsed, timeout), node),
        same_books(node.waiting(elapsed, timeout), node),
{
}

/// The positions of the replies that grant a vote.
pub open spec fn granting(replies: Seq<Option<Response>>) -> Set<int> {
    Set::new(
        |i: int|
            0 <= i < replies.len() && match replies[i] {
                Some(Response::VoteResponse { vote_granted, .. }) => vote_granted,
                _ => false,
            },
    )
}

/// A candidate has its own vote and one for every reply that grants one, whatever its
/// term; no other reply counts.
pub proof fn law_every_granted_vote_counts_once(replies: Seq<Option<Response>>)
    ensures
        granting(replies).finite(),
        granted_votes(replies) == granting(replies).len(),
        votes_won(replies) == 1 + granting(replies).len(),
    decreases replies.len(),
{
    let all = granting(replies);
    if replies.len() == 0 {
        assert(all =~= Set::empty());
    } else {
        let rest = granting(replies.drop_last());
        let last = replies.len() - 1;
        law_every_granted_vote_counts_once(replies.drop_last());
        if all.contains(last) {
            assert(all =~= rest.insert(last));
        } else {
            assert(all =~= rest);
        }
    }
}

/// A node that has the votes of more than half of the cluster in the term it stood for
/// leads it. With half of them or fewer it is a follower again. If its term has moved
/// on, nothing changes: it takes the lead of no other term than the one it was voted
/// into.
pub proof fn law_more_than_half_wins(node: NodeView, term: u64, votes: u64, last_index: int)
    ensures
        2 * votes > node.peers.len() + 1 && node.state.current_term == term ==> {
            &&& node.election_end(term, votes) == ElectionEnd::Won
            &&& node.elected(term, votes, last_index).role == Role::Leader
        },
        2 * votes > node.peers.len() + 1 && node.state.current_term != term ==> {
            &&& node.election_end(term, votes) == ElectionEnd::Stale
            &&& node.elected(term, votes, last_index) == node
        },
        2 * votes <= node.peers.len() + 1 ==> {
            &&& node.election_end(term, votes) == ElectionEnd::Lost
            &&& node.elected(term, votes, last_index).role == Role::Follower
            &&& node.elected(term, votes, last_index).leader_id == node.leader_id
            &&& same_books(node.elected(term, votes, last_index), node)
        },
        node.elected(term, votes, last_index).state == node.state,
        same_data(node.elected(term, votes, last_index), node),
{
}

/// A new leader takes every peer to hold nothing yet, and starts each of them right
/// after its own last entry. It names itself as the leader. Its term, vote, commit index
/// and data stay.
pub proof fn law_fresh_leader_starts_from_its_own_log(
    node: NodeView,
    last_index: int,
    peer: Seq<char>,
)
    requires
        0 <= last_index < u64::MAX,
    ensures
        node.leading(last_index).role == Role::Leader,
        node.leading(last_index).leader_id == Some(node.node_id),
        node.leading(last_index).state == node.state,
        same_data(node.leading(last_index), node),
        node.peers.contains(peer) ==> get_or(node.leading(last_index).next_index, peer, 1)
            == last_index + 1,
        get_or(node.leading(last_index).match_index, peer, 0) == 0,
        node.leading(last_index).replicating == node.replicating,
        node.leading(last_index).unreachable == node.unreachable,
        !node.peers.contains(peer) ==> !node.leading(last_index).next_index.contains_key(peer),
{
}

/// Every granted vote is written before it goes out, and so is every change of the term
/// or the vote; a state that stays as it is, with no vote granted, is not written.
pub proof fn law_what_changed_is_written_first(
    granted: bool,
    before: RaftStateView,
    after: RaftStateView,
)
    ensures
        granted ==> must_save(granted, before, after),
        after.current_term != before.current_term ==> must_save(granted, before, after),
        after.voted_for != before.voted_for ==> must_save(granted, before, after),
        !must_save(false, before, before),
{
}

/// A granted vote goes out once it is on disk, or if there is nothing to write; a vote
/// that could not be written does not, and one that was not granted never does.
pub proof fn law_vote_goes_out_once_it_is_on_disk(granted: bool, needs_save: bool, saved: bool)
    ensures
        granted && saved ==> vote_given(granted, needs_save, saved),
        granted && !needs_save ==> vote_given(granted, needs_save, saved),
        needs_save && !saved ==> !vote_given(granted, needs_save, saved),
        !granted ==> !vote_given(granted, needs_save, saved),
{
}

} // verus!
