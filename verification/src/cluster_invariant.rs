//! What every step of a cluster keeps.
//!
//! The invariant speaks of the cluster and of its history: which vote was given on
//! which log, who won which term with whose votes, and who has held how much of a
//! leader's log. The history is a function of the steps, kept for the proof alone.

use crate::cluster::{
    accepts,
    acknowledgement,
    actor,
    after_step,
    after_steps,
    can_run,
    enabled,
    ends_at,
    grants_request,
    has_granted,
    next_entry,
    vote_granted_in,
    vote_request,
    Cluster,
    Member,
    Message,
    Step,
};
use crate::message::{CommandView, LogEntryView};
use crate::node::{get_or, NodeView, Role};
use crate::node_laws::law_majorities_meet;
use crate::quorum::majority_of;
use crate::raft_laws::{
    law_agreeing_entries_stay,
    lemma_taken,
    share_history,
};
use crate::raft_log::{
    after_append,
    append_op_count,
    at_least_as_up_to_date,
    consistent,
    first_new,
    lemma_op_count,
    matches_at,
    term_at,
    LogState,
};
use vstd::prelude::*;

verus! {

/// A vote, and the log it was given on.
pub struct Ballot {
    pub candidate: Seq<char>,
    pub log: Seq<LogEntryView>,
}

/// A term that was won: by whom, with which log, what that log has become, and
/// the logs of those who voted for it when they did.
#[verifier::ext_equal]
pub struct Reign {
    pub leader: Seq<char>,
    pub start: Seq<LogEntryView>,
    pub log: Seq<LogEntryView>,
    pub voter_logs: Map<Seq<char>, Seq<LogEntryView>>,
}

/// What has happened so far.
#[verifier::ext_equal]
pub struct History {
    /// The terms that were won.
    pub reigns: Map<u64, Reign>,
    /// The vote of a member in a term.
    pub ballots: Map<(Seq<char>, u64), Ballot>,
    /// A member has held the log of a term's leader up to an index, in that term.
    pub held: Set<(Seq<char>, u64, int)>,
}

/// Nothing has happened yet.
pub open spec fn no_history() -> History {
    History { reigns: Map::empty(), ballots: Map::empty(), held: Set::empty() }
}

/// The history after the step.
pub open spec fn recorded(h: History, c: Cluster, step: Step) -> History {
    let id = actor(step);
    let m = c.members[id];
    let term = m.node.state.current_term;
    match step {
        Step::Campaign { .. } => History {
            ballots: h.ballots.insert(
                (id, (term + 1) as u64),
                Ballot { candidate: id, log: m.log.entries },
            ),
            ..h
        },
        Step::Vote { request, .. } => match request {
            CommandView::RequestVote { term: asked, candidate_id, .. } => if grants_request(
                m,
                request,
            ) && !h.ballots.contains_key((id, asked)) {
                History {
                    ballots: h.ballots.insert(
                        (id, asked),
                        Ballot { candidate: candidate_id, log: m.log.entries },
                    ),
                    ..h
                }
            } else {
                h
            },
            _ => h,
        },
        Step::Win { voters, .. } => if h.reigns.contains_key(term) {
            h
        } else {
            History {
                reigns: h.reigns.insert(
                    term,
                    Reign {
                        leader: id,
                        start: m.log.entries,
                        log: m.log.entries,
                        voter_logs: Map::new(
                            |v: Seq<char>| voters.insert(id).contains(v),
                            |v: Seq<char>| h.ballots[(v, term)].log,
                        ),
                    },
                ),
                ..h
            }
        },
        Step::Write { command, .. } => {
            let log = m.log.entries.push(next_entry(m, command));
            History {
                reigns: h.reigns.insert(term, Reign { log, ..h.reigns[term] }),
                held: h.held.insert((id, term, log.len() as int)),
                ..h
            }
        },
        Step::Take { request, payloads, performed, .. } => match request {
            CommandView::AppendEntries { term: sent_term, prev_log_index, entries, .. } =>
                if accepts(m, request, payloads, performed) {
                    History {
                        held: h.held.insert((id, sent_term, prev_log_index + entries.len())),
                        ..h
                    }
                } else {
                    h
                },
            _ => h,
        },
        _ => h,
    }
}

/// The history of the first `n` steps.
pub open spec fn history(start: Cluster, steps: Seq<Step>, n: int) -> History
    decreases n,
{
    if n <= 0 {
        no_history()
    } else {
        recorded(
            history(start, steps, n - 1),
            after_steps(start, steps, n - 1),
            steps[n - 1],
        )
    }
}

/// Every entry of the log came from the leader of its term, with everything
/// before it.
pub open spec fn rooted(h: History, log: Seq<LogEntryView>) -> bool {
    forall|k: int| 1 <= k <= log.len() ==> #[trigger] rooted_at(h, log, k)
}

pub open spec fn rooted_at(h: History, log: Seq<LogEntryView>, k: int) -> bool {
    let term = log[k - 1].term;
    &&& h.reigns.contains_key(term)
    &&& k <= h.reigns[term].log.len()
    &&& log.take(k) == h.reigns[term].log.take(k)
}

/// The log begins with the first `k` entries of the log of that term's leader.
pub open spec fn holds(h: History, log: Seq<LogEntryView>, term: u64, k: int) -> bool {
    &&& k <= log.len()
    &&& k <= h.reigns[term].log.len()
    &&& log.take(k) == h.reigns[term].log.take(k)
}

/// Some later term, up to `upto`, was won without the first `k` entries of the
/// log of that term's leader.
pub open spec fn lost(h: History, term: u64, k: int, upto: int) -> bool {
    exists|s: u64| #[trigger]
        h.reigns.contains_key(s) && term < s <= upto && !holds(h, h.reigns[s].start, term, k)
}

pub open spec fn survives(
    h: History,
    log: Seq<LogEntryView>,
    term: u64,
    k: int,
    upto: int,
) -> bool {
    holds(h, log, term, k) || lost(h, term, k, upto)
}

/// Everything of that term up to `held` is in the log, unless a later term, up to
/// `upto`, was won without it.
pub open spec fn kept(
    h: History,
    log: Seq<LogEntryView>,
    term: u64,
    held: int,
    upto: int,
) -> bool {
    forall|k: int|
        h.reigns[term].start.len() < k <= held ==> #[trigger] survives(h, log, term, k, upto)
}

/// The members know each other, and none of that changes.
pub open spec fn shape_ok(c: Cluster) -> bool {
    &&& c.members.dom().finite()
    &&& forall|id: Seq<char>| #[trigger]
        c.members.contains_key(id) ==> {
            let m = c.members[id];
            &&& m.node.node_id == id
            &&& m.node.peers.no_duplicates()
            &&& m.node.peers.to_set() == c.members.dom().remove(id)
            &&& m.log.entries.len() == m.log.offsets.len()
        }
}

/// A vote stands for as long as its term does, and was given to a candidate whose
/// log was at least as up to date.
pub open spec fn ballot_ok(c: Cluster, h: History, v: Seq<char>, t: u64) -> bool {
    let ballot = h.ballots[(v, t)];
    let winner = h.ballots[(ballot.candidate, t)];
    let state = c.members[v].node.state;
    &&& c.members.contains_key(v)
    &&& 1 <= t <= state.current_term
    &&& t == state.current_term ==> state.voted_for == Some(ballot.candidate)
    &&& h.ballots.contains_key((ballot.candidate, t))
    &&& winner.candidate == ballot.candidate
    &&& at_least_as_up_to_date(
        ends_at(winner.log).0,
        ends_at(winner.log).1,
        ends_at(ballot.log).0,
        ends_at(ballot.log).1,
    )
    &&& ballot.log.len() < u64::MAX
    &&& rooted(h, ballot.log)
}

pub open spec fn ballots_ok(c: Cluster, h: History) -> bool {
    &&& forall|v: Seq<char>, t: u64| #[trigger]
        h.ballots.contains_key((v, t)) ==> ballot_ok(c, h, v, t)
    &&& forall|v: Seq<char>| #[trigger]
        c.members.contains_key(v) ==> {
            let state = c.members[v].node.state;
            state.voted_for matches Some(candidate) ==> {
                &&& h.ballots.contains_key((v, state.current_term))
                &&& h.ballots[(v, state.current_term)].candidate == candidate
            }
        }
}

/// A vote request says where the candidate's log ended when it voted for itself.
pub open spec fn request_ok(h: History, command: CommandView) -> bool {
    command matches CommandView::RequestVote {
        term,
        candidate_id,
        last_log_index,
        last_log_term,
    } && {
        &&& h.ballots.contains_key((candidate_id, term))
        &&& h.ballots[(candidate_id, term)].candidate == candidate_id
        &&& ends_at(h.ballots[(candidate_id, term)].log) == (last_log_term, last_log_index)
    }
}

/// A granted vote is a ballot.
pub open spec fn grant_ok(h: History, v: Seq<char>, request: CommandView) -> bool {
    request matches CommandView::RequestVote { term, candidate_id, .. } && {
        &&& h.ballots.contains_key((v, term))
        &&& h.ballots[(v, term)].candidate == candidate_id
    }
}

pub open spec fn requests_ok(c: Cluster, h: History) -> bool {
    &&& forall|command: CommandView| #[trigger]
        c.sent.contains(Message::VoteRequest { command }) ==> request_ok(h, command)
    &&& forall|v: Seq<char>, request: CommandView, term: u64| #[trigger]
        c.sent.contains(
            Message::Reply { from: v, request, response: vote_granted_in(term) },
        ) ==> grant_ok(h, v, request)
}

/// A term that was won was won by a majority, and its log is what its leader
/// started with and then entries of its own term.
pub open spec fn reign_ok(c: Cluster, h: History, t: u64) -> bool {
    let r = h.reigns[t];
    &&& t >= 1
    &&& c.members.contains_key(r.leader)
    &&& c.members[r.leader].node.state.current_term >= t
    &&& h.ballots.contains_key((r.leader, t))
    &&& h.ballots[(r.leader, t)].candidate == r.leader
    &&& h.ballots[(r.leader, t)].log == r.start
    &&& r.start.len() <= r.log.len() < u64::MAX
    &&& r.log.take(r.start.len() as int) == r.start
    &&& consistent(r.log)
    &&& rooted(h, r.log)
    &&& forall|k: int| 0 <= k < r.start.len() ==> (#[trigger] r.log[k]).term < t
    &&& forall|k: int| r.start.len() <= k < r.log.len() ==> (#[trigger] r.log[k]).term == t
    &&& r.log.len() > r.start.len() ==> h.held.contains((r.leader, t, r.log.len() as int))
    &&& r.voter_logs.dom().finite()
    &&& r.voter_logs.dom().subset_of(c.members.dom())
    &&& r.voter_logs.dom().len() >= majority_of((c.members.dom().len() - 1) as nat)
    &&& forall|v: Seq<char>| #[trigger]
        r.voter_logs.contains_key(v) ==> {
            &&& h.ballots.contains_key((v, t))
            &&& h.ballots[(v, t)].candidate == r.leader
            &&& h.ballots[(v, t)].log == r.voter_logs[v]
        }
}

pub open spec fn reigns_ok(c: Cluster, h: History) -> bool {
    forall|t: u64| #[trigger] h.reigns.contains_key(t) ==> reign_ok(c, h, t)
}

/// Every member's log is made of what leaders wrote, in terms it has seen.
pub open spec fn log_ok(h: History, m: Member) -> bool {
    &&& rooted(h, m.log.entries)
    &&& forall|k: int|
        0 <= k < m.log.entries.len() ==> (#[trigger] m.log.entries[k]).term
            <= m.node.state.current_term
}

pub open spec fn logs_ok(c: Cluster, h: History) -> bool {
    forall|id: Seq<char>| #[trigger] c.members.contains_key(id) ==> log_ok(h, c.members[id])
}

/// A leader has won its term, and while a member stays in a term it has won, or
/// campaigns in and nobody has won, its log is its own.
pub open spec fn leader_ok(h: History, id: Seq<char>, m: Member) -> bool {
    let t = m.node.state.current_term;
    &&& m.node.role == Role::Leader ==> h.reigns.contains_key(t) && h.reigns[t].leader == id
    &&& h.reigns.contains_key(t) && h.reigns[t].leader == id ==> m.log.entries == h.reigns[t].log
    &&& h.ballots.contains_key((id, t)) && h.ballots[(id, t)].candidate == id
        && !h.reigns.contains_key(t) ==> m.log.entries == h.ballots[(id, t)].log
}

pub open spec fn leaders_ok(c: Cluster, h: History) -> bool {
    forall|id: Seq<char>| #[trigger]
        c.members.contains_key(id) ==> leader_ok(h, id, c.members[id])
}

/// An `AppendEntries` carries a piece of its leader's log, or asks about an entry
/// that the leader does not have.
pub open spec fn append_ok(h: History, to: Seq<char>, command: CommandView) -> bool {
    command matches CommandView::AppendEntries {
        term,
        leader_id,
        prev_log_index,
        prev_log_term,
        entries,
        ..
    } && {
        let log = h.reigns[term].log;
        &&& h.reigns.contains_key(term)
        &&& h.reigns[term].leader == leader_id
        &&& to != leader_id
        &&& {
            ||| {
                &&& prev_log_index + entries.len() <= log.len()
                &&& term_at(log, prev_log_index as int) == Some(prev_log_term)
                &&& entries == log.subrange(
                    prev_log_index as int,
                    prev_log_index + entries.len(),
                )
            }
            ||| prev_log_index > 0 && prev_log_term == 0 && entries.len() == 0
        }
    }
}

pub open spec fn appends_ok(c: Cluster, h: History) -> bool {
    forall|to: Seq<char>, command: CommandView| #[trigger]
        c.sent.contains(Message::Append { to, command }) ==> append_ok(h, to, command)
}

/// Who held how much, and the acknowledgements that say so.
pub open spec fn held_ok(c: Cluster, h: History) -> bool {
    &&& forall|v: Seq<char>, t: u64, u: int| #[trigger]
        h.held.contains((v, t, u)) ==> {
            &&& c.members.contains_key(v)
            &&& h.reigns.contains_key(t)
            &&& 0 <= u <= h.reigns[t].log.len()
            &&& t <= c.members[v].node.state.current_term
        }
    &&& forall|v: Seq<char>, request: CommandView, term: u64, index: u64| #[trigger]
        c.sent.contains(
            Message::Reply { from: v, request, response: acknowledgement(term, index) },
        ) ==> (request matches CommandView::AppendEntries { term: sent_term, .. } && h.held.contains(
            (v, sent_term, index as int),
        ))
}

/// A leader believes of a peer only what that has acknowledged.
pub open spec fn cursors_ok(c: Cluster, h: History) -> bool {
    forall|id: Seq<char>, p: Seq<char>|
        #![trigger c.members.contains_key(id), c.members.contains_key(p)]
        c.members.contains_key(id) && c.members.contains_key(p) ==> cursor_ok(
            h,
            c.members[id].node,
            p,
        )
}

pub open spec fn cursor_ok(h: History, node: NodeView, p: Seq<char>) -> bool {
    let index = get_or(node.match_index, p, 0);
    node.role == Role::Leader && index > 0 ==> h.held.contains(
        (p, node.state.current_term, index as int),
    )
}

/// What a member held stays in its log, in the log that it voted on later, and in
/// the logs that later winners were voted for on, unless a later term was won
/// without it.
pub open spec fn kept_ok(c: Cluster, h: History) -> bool {
    &&& forall|v: Seq<char>, t: u64, u: int| #[trigger]
        h.held.contains((v, t, u)) ==> kept(
            h,
            c.members[v].log.entries,
            t,
            u,
            c.members[v].node.state.current_term as int,
        )
    &&& forall|v: Seq<char>, t: u64, u: int, s: u64|
        #![trigger h.held.contains((v, t, u)), h.ballots.contains_key((v, s))]
        h.held.contains((v, t, u)) && h.ballots.contains_key((v, s)) && t < s ==> kept(
            h,
            h.ballots[(v, s)].log,
            t,
            u,
            s as int,
        )
    &&& forall|v: Seq<char>, t: u64, u: int, s: u64|
        #![trigger h.held.contains((v, t, u)), h.reigns.contains_key(s)]
        h.held.contains((v, t, u)) && h.reigns.contains_key(s) && t < s
            && h.reigns[s].voter_logs.contains_key(v) ==> kept(
            h,
            h.reigns[s].voter_logs[v],
            t,
            u,
            s - 1,
        )
}

/// All of it.
pub open spec fn invariant_holds(c: Cluster, h: History) -> bool {
    &&& shape_ok(c)
    &&& ballots_ok(c, h)
    &&& requests_ok(c, h)
    &&& reigns_ok(c, h)
    &&& logs_ok(c, h)
    &&& leaders_ok(c, h)
    &&& appends_ok(c, h)
    &&& held_ok(c, h)
    &&& cursors_ok(c, h)
    &&& kept_ok(c, h)
}

/// A later history: votes and wins stand, and a leader's log only grows.
pub open spec fn extends(h: History, later: History) -> bool {
    &&& h.held.subset_of(later.held)
    &&& forall|v: Seq<char>, t: u64| #[trigger]
        h.ballots.contains_key((v, t)) ==> later.ballots.contains_key((v, t)) && later.ballots[(
            v,
            t,
        )] == h.ballots[(v, t)]
    &&& forall|t: u64| #[trigger]
        h.reigns.contains_key(t) ==> {
            &&& later.reigns.contains_key(t)
            &&& later.reigns[t].leader == h.reigns[t].leader
            &&& later.reigns[t].start == h.reigns[t].start
            &&& later.reigns[t].voter_logs == h.reigns[t].voter_logs
            &&& h.reigns[t].log.len() <= later.reigns[t].log.len()
            &&& later.reigns[t].log.take(h.reigns[t].log.len() as int) == h.reigns[t].log
        }
}

proof fn lemma_rooted_extends(h: History, later: History, log: Seq<LogEntryView>)
    requires
        extends(h, later),
        rooted(h, log),
    ensures
        rooted(later, log),
{
    assert forall|k: int| 1 <= k <= log.len() implies #[trigger] rooted_at(later, log, k) by {
        assert(rooted_at(h, log, k));
        let term = log[k - 1].term;
        assert(h.reigns.contains_key(term));
        lemma_take_of_prefix(h.reigns[term].log, later.reigns[term].log, k);
    }
}

pub proof fn lemma_take_of_prefix(prefix: Seq<LogEntryView>, whole: Seq<LogEntryView>, k: int)
    requires
        prefix.len() <= whole.len(),
        whole.take(prefix.len() as int) == prefix,
        0 <= k <= prefix.len(),
    ensures
        whole.take(k) == prefix.take(k),
{
    assert(whole.take(prefix.len() as int).take(k) =~= whole.take(k));
}

proof fn lemma_kept_extends(
    h: History,
    later: History,
    log: Seq<LogEntryView>,
    term: u64,
    held: int,
    upto: int,
    later_upto: int,
)
    requires
        extends(h, later),
        h.reigns.contains_key(term),
        held <= h.reigns[term].log.len(),
        upto <= later_upto,
        kept(h, log, term, held, upto),
    ensures
        kept(later, log, term, held, later_upto),
{
    assert forall|k: int| later.reigns[term].start.len() < k <= held implies #[trigger] survives(
        later,
        log,
        term,
        k,
        later_upto,
    ) by {
        assert(survives(h, log, term, k, upto));
        lemma_take_of_prefix(h.reigns[term].log, later.reigns[term].log, k);
        if !holds(h, log, term, k) {
            let s = choose|s: u64| #[trigger]
                h.reigns.contains_key(s) && term < s <= upto && !holds(
                    h,
                    h.reigns[s].start,
                    term,
                    k,
                );
            assert(later.reigns.contains_key(s));
            assert(!holds(later, later.reigns[s].start, term, k));
        }
    }
}

/// A rooted log has terms from 1 on.
pub proof fn lemma_rooted_terms(c: Cluster, h: History, log: Seq<LogEntryView>, k: int)
    requires
        reigns_ok(c, h),
        rooted(h, log),
        1 <= k <= log.len(),
    ensures
        h.reigns.contains_key(log[k - 1].term),
        log[k - 1].term >= 1,
        log.len() < u64::MAX,
{
    assert(rooted_at(h, log, k));
    assert(rooted_at(h, log, log.len() as int));
}

/// A prefix of a rooted log is rooted.
proof fn lemma_rooted_take(h: History, log: Seq<LogEntryView>, n: int)
    requires
        rooted(h, log),
        0 <= n <= log.len(),
    ensures
        rooted(h, log.take(n)),
{
    assert forall|k: int| 1 <= k <= n implies #[trigger] rooted_at(h, log.take(n), k) by {
        assert(rooted_at(h, log, k));
        assert(log.take(n).take(k) =~= log.take(k));
    }
}

/// Entries of the same index and term in two rooted logs have the same history.
pub proof fn lemma_rooted_share(h: History, a: Seq<LogEntryView>, b: Seq<LogEntryView>)
    requires
        rooted(h, a),
        rooted(h, b),
    ensures
        share_history(a, b),
{
    assert forall|i: int|
        1 <= i <= a.len() && i <= b.len() && #[trigger] term_at(a, i) == term_at(b, i) implies a.take(
        i,
    ) == b.take(i) by {
        assert(rooted_at(h, a, i));
        assert(rooted_at(h, b, i));
    }
}

/// Only the member `id` has changed, it keeps its promises, and what is new in the
/// history is its doing.
spec fn framed(c: Cluster, h: History, c2: Cluster, h2: History, id: Seq<char>) -> bool {
    let m = c.members[id];
    let m2 = c2.members[id];
    &&& invariant_holds(c, h)
    &&& extends(h, h2)
    &&& c.members.contains_key(id)
    &&& c2.members == c.members.insert(id, m2)
    &&& m2.node.node_id == m.node.node_id
    &&& m2.node.peers == m.node.peers
    &&& m2.log.entries.len() == m2.log.offsets.len()
    &&& m.node.state.current_term <= m2.node.state.current_term
    &&& m.node.state.current_term == m2.node.state.current_term && m.node.state.voted_for is Some
        ==> m2.node.state.voted_for == m.node.state.voted_for
    &&& forall|v: Seq<char>, t: u64| #[trigger]
        h2.ballots.contains_key((v, t)) && !h.ballots.contains_key((v, t)) ==> v == id
    &&& forall|t: u64| #[trigger]
        h2.reigns.contains_key(t) ==> h.reigns.contains_key(t) && h2.reigns[t] == h.reigns[t]
            || h2.reigns[t].leader == id
}

proof fn lemma_frame_shape(c: Cluster, h: History, c2: Cluster, h2: History, id: Seq<char>)
    requires
        framed(c, h, c2, h2, id),
    ensures
        shape_ok(c2),
        c2.members.dom() == c.members.dom(),
{
    assert(c2.members.dom() =~= c.members.dom());
}

proof fn lemma_frame_votes(c: Cluster, h: History, c2: Cluster, h2: History, id: Seq<char>)
    requires
        framed(c, h, c2, h2, id),
    ensures
        forall|v: Seq<char>, t: u64| #[trigger]
            h.ballots.contains_key((v, t)) ==> ballot_ok(c2, h2, v, t),
        forall|command: CommandView| #[trigger]
            c.sent.contains(Message::VoteRequest { command }) ==> request_ok(h2, command),
        forall|v: Seq<char>, request: CommandView, term: u64| #[trigger]
            c.sent.contains(
                Message::Reply { from: v, request, response: vote_granted_in(term) },
            ) ==> grant_ok(h2, v, request),
{
    assert forall|v: Seq<char>, t: u64| #[trigger] h.ballots.contains_key((v, t)) implies ballot_ok(
        c2,
        h2,
        v,
        t,
    ) by {
        assert(ballot_ok(c, h, v, t));
        lemma_rooted_extends(h, h2, h.ballots[(v, t)].log);
        assert(h.ballots.contains_key((h.ballots[(v, t)].candidate, t)));
    }
    assert forall|command: CommandView| #[trigger]
        c.sent.contains(Message::VoteRequest { command }) implies request_ok(h2, command) by {
        assert(request_ok(h, command));
    }
    assert forall|v: Seq<char>, request: CommandView, term: u64| #[trigger]
        c.sent.contains(
            Message::Reply { from: v, request, response: vote_granted_in(term) },
        ) implies grant_ok(h2, v, request) by {
        assert(grant_ok(h, v, request));
    }
}

proof fn lemma_frame_reigns(c: Cluster, h: History, c2: Cluster, h2: History, id: Seq<char>)
    requires
        framed(c, h, c2, h2, id),
    ensures
        forall|t: u64| #[trigger]
            h.reigns.contains_key(t) && h2.reigns[t] == h.reigns[t] ==> reign_ok(c2, h2, t),
{
    lemma_frame_shape(c, h, c2, h2, id);
    assert forall|t: u64| #[trigger] h.reigns.contains_key(t) && h2.reigns[t]
        == h.reigns[t] implies reign_ok(c2, h2, t) by {
        assert(reign_ok(c, h, t));
        let r = h.reigns[t];
        lemma_rooted_extends(h, h2, r.log);
        assert(h.ballots.contains_key((r.leader, t)));
        assert forall|v: Seq<char>| #[trigger] r.voter_logs.contains_key(v) implies {
            &&& h2.ballots.contains_key((v, t))
            &&& h2.ballots[(v, t)].candidate == r.leader
            &&& h2.ballots[(v, t)].log == r.voter_logs[v]
        } by {
            assert(h.ballots.contains_key((v, t)));
        }
    }
}

proof fn lemma_frame_members(c: Cluster, h: History, c2: Cluster, h2: History, id: Seq<char>)
    requires
        framed(c, h, c2, h2, id),
    ensures
        forall|v: Seq<char>| #[trigger]
            c.members.contains_key(v) && v != id ==> log_ok(h2, c2.members[v]) && leader_ok(
                h2,
                v,
                c2.members[v],
            ),
{
    assert forall|v: Seq<char>| #[trigger] c.members.contains_key(v) && v != id implies log_ok(
        h2,
        c2.members[v],
    ) && leader_ok(h2, v, c2.members[v]) by {
        let m = c.members[v];
        assert(c2.members[v] == m);
        assert(log_ok(h, m));
        assert(leader_ok(h, v, m));
        lemma_rooted_extends(h, h2, m.log.entries);
        let t = m.node.state.current_term;
        if h.reigns.contains_key(t) {
            assert(h2.reigns.contains_key(t));
        }
        if h2.ballots.contains_key((v, t)) {
            assert(h.ballots.contains_key((v, t)));
        }
    }
}

proof fn lemma_frame_messages(c: Cluster, h: History, c2: Cluster, h2: History, id: Seq<char>)
    requires
        framed(c, h, c2, h2, id),
    ensures
        forall|to: Seq<char>, command: CommandView| #[trigger]
            c.sent.contains(Message::Append { to, command }) ==> append_ok(h2, to, command),
        forall|v: Seq<char>, t: u64, u: int| #[trigger]
            h.held.contains((v, t, u)) ==> {
                &&& h2.held.contains((v, t, u))
                &&& c2.members.contains_key(v)
                &&& h2.reigns.contains_key(t)
                &&& 0 <= u <= h.reigns[t].log.len() <= h2.reigns[t].log.len()
                &&& t <= c2.members[v].node.state.current_term
            },
        forall|v: Seq<char>, request: CommandView, term: u64, index: u64| #[trigger]
            c.sent.contains(
                Message::Reply { from: v, request, response: acknowledgement(term, index) },
            ) ==> (request matches CommandView::AppendEntries { term: sent_term, .. }
                && h2.held.contains((v, sent_term, index as int))),
        forall|v: Seq<char>, p: Seq<char>|
            #![trigger c2.members.contains_key(v), c2.members.contains_key(p)]
            c2.members.contains_key(v) && c2.members.contains_key(p) && v != id ==> cursor_ok(
                h2,
                c2.members[v].node,
                p,
            ),
{
    assert forall|to: Seq<char>, command: CommandView| #[trigger]
        c.sent.contains(Message::Append { to, command }) implies append_ok(h2, to, command) by {
        assert(append_ok(h, to, command));
        let term = command->AppendEntries_term;
        let prev = command->prev_log_index as int;
        let entries = command->AppendEntries_entries;
        let log = h.reigns[term].log;
        let log2 = h2.reigns[term].log;
        assert(h.reigns.contains_key(term));
        if prev + entries.len() <= log.len() {
            assert(log2.take(log.len() as int)[prev - 1] == log2[prev - 1] || prev == 0);
            assert(log2.take(log.len() as int).subrange(prev, prev + entries.len())
                =~= log2.subrange(prev, prev + entries.len()));
        }
    }
    assert forall|v: Seq<char>, t: u64, u: int| #[trigger] h.held.contains((v, t, u)) implies {
        &&& h2.held.contains((v, t, u))
        &&& c2.members.contains_key(v)
        &&& h2.reigns.contains_key(t)
        &&& 0 <= u <= h.reigns[t].log.len() <= h2.reigns[t].log.len()
        &&& t <= c2.members[v].node.state.current_term
    } by {
        assert(h.reigns.contains_key(t));
    }
    assert forall|v: Seq<char>, p: Seq<char>|
        #![trigger c2.members.contains_key(v), c2.members.contains_key(p)]
        c2.members.contains_key(v) && c2.members.contains_key(p) && v != id implies cursor_ok(
        h2,
        c2.members[v].node,
        p,
    ) by {
        assert(c.members.contains_key(v) && c.members.contains_key(p));
        assert(cursor_ok(h, c.members[v].node, p));
    }
}

proof fn lemma_frame_kept(c: Cluster, h: History, c2: Cluster, h2: History, id: Seq<char>)
    requires
        framed(c, h, c2, h2, id),
    ensures
        forall|v: Seq<char>, t: u64, u: int| #[trigger]
            h.held.contains((v, t, u)) && v != id ==> kept(
                h2,
                c2.members[v].log.entries,
                t,
                u,
                c2.members[v].node.state.current_term as int,
            ),
        forall|v: Seq<char>, t: u64, u: int, s: u64|
            #![trigger h.held.contains((v, t, u)), h.ballots.contains_key((v, s))]
            h.held.contains((v, t, u)) && h.ballots.contains_key((v, s)) && t < s ==> kept(
                h2,
                h2.ballots[(v, s)].log,
                t,
                u,
                s as int,
            ),
        forall|v: Seq<char>, t: u64, u: int, s: u64|
            #![trigger h.held.contains((v, t, u)), h.reigns.contains_key(s)]
            h.held.contains((v, t, u)) && h.reigns.contains_key(s) && t < s
                && h2.reigns[s].voter_logs.contains_key(v) ==> kept(
                h2,
                h2.reigns[s].voter_logs[v],
                t,
                u,
                s - 1,
            ),
{
    assert forall|v: Seq<char>, t: u64, u: int| #[trigger]
        h.held.contains((v, t, u)) && v != id implies kept(
        h2,
        c2.members[v].log.entries,
        t,
        u,
        c2.members[v].node.state.current_term as int,
    ) by {
        let term = c.members[v].node.state.current_term as int;
        assert(c.members.contains_key(v));
        lemma_kept_extends(h, h2, c.members[v].log.entries, t, u, term, term);
    }
    assert forall|v: Seq<char>, t: u64, u: int, s: u64|
        #![trigger h.held.contains((v, t, u)), h.ballots.contains_key((v, s))]
        h.held.contains((v, t, u)) && h.ballots.contains_key((v, s)) && t < s implies kept(
        h2,
        h2.ballots[(v, s)].log,
        t,
        u,
        s as int,
    ) by {
        lemma_kept_extends(h, h2, h.ballots[(v, s)].log, t, u, s as int, s as int);
    }
    assert forall|v: Seq<char>, t: u64, u: int, s: u64|
        #![trigger h.held.contains((v, t, u)), h.reigns.contains_key(s)]
        h.held.contains((v, t, u)) && h.reigns.contains_key(s) && t < s
            && h2.reigns[s].voter_logs.contains_key(v) implies kept(
        h2,
        h2.reigns[s].voter_logs[v],
        t,
        u,
        s - 1,
    ) by {
        lemma_kept_extends(h, h2, h.reigns[s].voter_logs[v], t, u, s - 1, s - 1);
    }
}

/// A step after which only the member `id` differs, and neither its log nor the
/// history nor what it has promised.
proof fn lemma_quiet_step(c: Cluster, h: History, c2: Cluster, id: Seq<char>)
    requires
        framed(c, h, c2, h, id),
        c2.sent == c.sent,
        c2.members[id].log == c.members[id].log,
        c2.members[id].node.state.current_term == c.members[id].node.state.current_term,
        c2.members[id].node.state.voted_for == c.members[id].node.state.voted_for,
        c2.members[id].node.role == Role::Leader ==> c.members[id].node.role == Role::Leader,
        forall|p: Seq<char>| #[trigger]
            c.members.contains_key(p) ==> cursor_ok(h, c2.members[id].node, p),
    ensures
        invariant_holds(c2, h),
{
    lemma_frame_shape(c, h, c2, h, id);
    lemma_frame_votes(c, h, c2, h, id);
    lemma_frame_reigns(c, h, c2, h, id);
    lemma_frame_members(c, h, c2, h, id);
    lemma_frame_messages(c, h, c2, h, id);
    lemma_frame_kept(c, h, c2, h, id);
    assert(log_ok(h, c.members[id]));
    assert(leader_ok(h, id, c.members[id]));
    assert(log_ok(h, c2.members[id]));
    assert(leader_ok(h, id, c2.members[id]));
    assert(logs_ok(c2, h));
    assert(leaders_ok(c2, h));
    assert(ballots_ok(c2, h));
    assert(requests_ok(c2, h));
    assert(reigns_ok(c2, h));
    assert(appends_ok(c2, h));
    assert(held_ok(c2, h));
    assert(cursors_ok(c2, h));
    assert(kept_ok(c2, h));
}

/// Only votes and acknowledgements are new.
proof fn lemma_extends_same_reigns(h: History, later: History)
    requires
        later.reigns == h.reigns,
        h.held.subset_of(later.held),
        forall|v: Seq<char>, t: u64| #[trigger]
            h.ballots.contains_key((v, t)) ==> later.ballots.contains_key((v, t)) && later.ballots[(
                v,
                t,
            )] == h.ballots[(v, t)],
    ensures
        extends(h, later),
{
    assert forall|t: u64| #[trigger] h.reigns.contains_key(t) implies later.reigns[t].log.take(
        h.reigns[t].log.len() as int,
    ) == h.reigns[t].log by {
        assert(h.reigns[t].log.take(h.reigns[t].log.len() as int) =~= h.reigns[t].log);
    }
}

pub proof fn lemma_extends_itself(h: History)
    ensures
        extends(h, h),
{
    lemma_extends_same_reigns(h, h);
}

proof fn lemma_campaign(c: Cluster, h: History, step: Step)
    requires
        invariant_holds(c, h),
        enabled(c, step),
        step is Campaign,
    ensures
        invariant_holds(after_step(c, step), recorded(h, c, step)),
{
    let id = actor(step);
    let (c2, h2) = (after_step(c, step), recorded(h, c, step));
    let (m, m2) = (c.members[id], c2.members[id]);
    let t = m2.node.state.current_term;
    let request = vote_request(m.node.campaigning(), m.log.entries);
    let old = m.node.state.current_term as int;
    if h.ballots.contains_key((id, t)) {
        assert(ballot_ok(c, h, id, t));
    }
    lemma_extends_same_reigns(h, h2);
    assert(framed(c, h, c2, h2, id));
    lemma_frame_shape(c, h, c2, h2, id);
    lemma_frame_votes(c, h, c2, h2, id);
    lemma_frame_reigns(c, h, c2, h2, id);
    lemma_frame_members(c, h, c2, h2, id);
    lemma_frame_messages(c, h, c2, h2, id);
    lemma_frame_kept(c, h, c2, h2, id);
    assert(log_ok(h, m));
    lemma_rooted_extends(h, h2, m.log.entries);
    if m.log.entries.len() > 0 {
        lemma_rooted_terms(c, h, m.log.entries, 1);
    }
    assert(ballot_ok(c2, h2, id, t));
    assert(ballots_ok(c2, h2));
    assert(request_ok(h2, request));
    assert(requests_ok(c2, h2));
    assert(reigns_ok(c2, h2));
    assert(log_ok(h2, m2));
    assert(logs_ok(c2, h2));
    if h.reigns.contains_key(t) {
        assert(reign_ok(c, h, t));
    }
    assert(leader_ok(h2, id, m2));
    assert(leaders_ok(c2, h2));
    assert(appends_ok(c2, h2));
    assert(held_ok(c2, h2));
    assert(cursors_ok(c2, h2));
    assert forall|v: Seq<char>, t0: u64, u: int| #[trigger] h2.held.contains((v, t0, u)) implies kept(
        h2,
        c2.members[v].log.entries,
        t0,
        u,
        c2.members[v].node.state.current_term as int,
    ) by {
        assert(h.held.contains((v, t0, u)));
        if v == id {
            lemma_kept_extends(h, h2, m.log.entries, t0, u, old, t as int);
        }
    }
    assert forall|v: Seq<char>, t0: u64, u: int, s: u64|
        #![trigger h2.held.contains((v, t0, u)), h2.ballots.contains_key((v, s))]
        h2.held.contains((v, t0, u)) && h2.ballots.contains_key((v, s)) && t0 < s implies kept(
        h2,
        h2.ballots[(v, s)].log,
        t0,
        u,
        s as int,
    ) by {
        assert(h.held.contains((v, t0, u)));
        if !h.ballots.contains_key((v, s)) {
            lemma_kept_extends(h, h2, m.log.entries, t0, u, old, t as int);
        }
    }
    assert(kept_ok(c2, h2));
}

proof fn lemma_hear(c: Cluster, h: History, step: Step)
    requires
        invariant_holds(c, h),
        enabled(c, step),
        step is Hear,
    ensures
        invariant_holds(after_step(c, step), recorded(h, c, step)),
{
    let id = actor(step);
    let c2 = after_step(c, step);
    let (m, m2) = (c.members[id], c2.members[id]);
    let (old, t) = (m.node.state.current_term, m2.node.state.current_term);
    assert(c2.sent =~= c.sent);
    lemma_extends_same_reigns(h, h);
    assert(framed(c, h, c2, h, id));
    lemma_frame_shape(c, h, c2, h, id);
    lemma_frame_votes(c, h, c2, h, id);
    lemma_frame_reigns(c, h, c2, h, id);
    lemma_frame_members(c, h, c2, h, id);
    lemma_frame_messages(c, h, c2, h, id);
    lemma_frame_kept(c, h, c2, h, id);
    assert(log_ok(h, m));
    assert(leader_ok(h, id, m));
    assert(ballots_ok(c2, h));
    assert(requests_ok(c2, h));
    assert(reigns_ok(c2, h));
    assert(log_ok(h, m2));
    assert(logs_ok(c2, h));
    if h.reigns.contains_key(t) {
        assert(reign_ok(c, h, t));
    }
    if h.ballots.contains_key((id, t)) {
        assert(ballot_ok(c, h, id, t));
    }
    assert(leader_ok(h, id, m2));
    assert(leaders_ok(c2, h));
    assert(appends_ok(c2, h));
    assert(held_ok(c2, h));
    assert forall|p: Seq<char>| #[trigger] c.members.contains_key(p) implies cursor_ok(
        h,
        m2.node,
        p,
    ) by {
        assert(cursor_ok(h, m.node, p));
    }
    assert(cursors_ok(c2, h));
    assert forall|v: Seq<char>, t0: u64, u: int| #[trigger] h.held.contains((v, t0, u)) implies kept(
        h,
        c2.members[v].log.entries,
        t0,
        u,
        c2.members[v].node.state.current_term as int,
    ) by {
        if v == id {
            lemma_kept_extends(h, h, m.log.entries, t0, u, old as int, t as int);
        }
    }
    assert(kept_ok(c2, h));
}

proof fn lemma_vote(c: Cluster, h: History, step: Step)
    requires
        invariant_holds(c, h),
        enabled(c, step),
        step is Vote,
    ensures
        invariant_holds(after_step(c, step), recorded(h, c, step)),
{
    let id = actor(step);
    let request = step->Vote_request;
    let (c2, h2) = (after_step(c, step), recorded(h, c, step));
    let (m, m2) = (c.members[id], c2.members[id]);
    let (old, t) = (m.node.state.current_term, m2.node.state.current_term);
    let asked = request->RequestVote_term;
    let wanted = request->candidate_id;
    let granted = grants_request(m, request);
    assert(request_ok(h, request));
    assert(h.ballots.contains_key((wanted, asked)));
    if h.ballots.contains_key((id, asked)) {
        assert(ballot_ok(c, h, id, asked));
    }
    lemma_extends_same_reigns(h, h2);
    assert(framed(c, h, c2, h2, id));
    lemma_frame_shape(c, h, c2, h2, id);
    lemma_frame_votes(c, h, c2, h2, id);
    lemma_frame_reigns(c, h, c2, h2, id);
    lemma_frame_members(c, h, c2, h2, id);
    lemma_frame_messages(c, h, c2, h2, id);
    lemma_frame_kept(c, h, c2, h2, id);
    assert(log_ok(h, m));
    assert(leader_ok(h, id, m));
    lemma_rooted_extends(h, h2, m.log.entries);
    if m.log.entries.len() > 0 {
        lemma_rooted_terms(c, h, m.log.entries, 1);
    }
    if granted {
        assert(t == asked);
        assert(ballot_ok(c, h, wanted, asked));
        assert(ballot_ok(c2, h2, id, asked));
        assert(h2.ballots[(id, asked)].candidate == wanted);
    }
    assert(ballots_ok(c2, h2));
    assert(requests_ok(c2, h2)) by {
        assert forall|v: Seq<char>, r: CommandView, term: u64| #[trigger]
            c2.sent.contains(
                Message::Reply { from: v, request: r, response: vote_granted_in(term) },
            ) implies grant_ok(h2, v, r) by {
            if !c.sent.contains(
                Message::Reply { from: v, request: r, response: vote_granted_in(term) },
            ) {
                assert(granted && v == id && r == request);
            }
        }
    }
    assert(reigns_ok(c2, h2));
    assert(log_ok(h2, m2));
    assert(logs_ok(c2, h2));
    if h.reigns.contains_key(t) {
        assert(reign_ok(c, h, t));
    }
    if h.ballots.contains_key((id, t)) {
        assert(ballot_ok(c, h, id, t));
    }
    assert(leader_ok(h2, id, m2));
    assert(leaders_ok(c2, h2));
    assert(appends_ok(c2, h2));
    assert(held_ok(c2, h2)) by {
        assert forall|v: Seq<char>, r: CommandView, term: u64, index: u64| #[trigger]
            c2.sent.contains(
                Message::Reply { from: v, request: r, response: acknowledgement(term, index) },
            ) implies (r matches CommandView::AppendEntries { term: sent_term, .. }
            && h2.held.contains((v, sent_term, index as int))) by {
            assert(c.sent.contains(
                Message::Reply { from: v, request: r, response: acknowledgement(term, index) },
            ));
        }
    }
    assert forall|p: Seq<char>| #[trigger] c.members.contains_key(p) implies cursor_ok(
        h2,
        m2.node,
        p,
    ) by {
        assert(cursor_ok(h, m.node, p));
    }
    assert(cursors_ok(c2, h2));
    assert forall|v: Seq<char>, t0: u64, u: int| #[trigger] h2.held.contains((v, t0, u)) implies kept(
        h2,
        c2.members[v].log.entries,
        t0,
        u,
        c2.members[v].node.state.current_term as int,
    ) by {
        assert(h.held.contains((v, t0, u)));
        if v == id {
            lemma_kept_extends(h, h2, m.log.entries, t0, u, old as int, t as int);
        }
    }
    assert forall|v: Seq<char>, t0: u64, u: int, s: u64|
        #![trigger h2.held.contains((v, t0, u)), h2.ballots.contains_key((v, s))]
        h2.held.contains((v, t0, u)) && h2.ballots.contains_key((v, s)) && t0 < s implies kept(
        h2,
        h2.ballots[(v, s)].log,
        t0,
        u,
        s as int,
    ) by {
        assert(h.held.contains((v, t0, u)));
        if !h.ballots.contains_key((v, s)) {
            lemma_kept_extends(h, h2, m.log.entries, t0, u, old as int, t as int);
        }
    }
    assert(kept_ok(c2, h2));
}

proof fn lemma_send(c: Cluster, h: History, step: Step)
    requires
        invariant_holds(c, h),
        enabled(c, step),
        step is Send,
    ensures
        invariant_holds(after_step(c, step), recorded(h, c, step)),
{
    let id = actor(step);
    let peer = step->Send_peer;
    let c2 = after_step(c, step);
    let m = c.members[id];
    let message = m.node.append_message(peer, m.log.entries);
    assert(c2.members =~= c.members);
    assert(leader_ok(h, id, m));
    assert(m.node.peers.to_set().contains(peer));
    assert(append_ok(h, peer, message)) by {
        let log = m.log.entries;
        let entries = message->AppendEntries_entries;
        let prev = message->prev_log_index as int;
        if log.len() > 0 {
            assert(log_ok(h, m));
            lemma_rooted_terms(c, h, log, 1);
        }
        assert(prev <= log.len() ==> entries =~= log.subrange(prev, prev + entries.len()));
    }
    assert(requests_ok(c2, h));
    assert(appends_ok(c2, h));
    assert(held_ok(c2, h));
}

/// The candidate that won has the votes of a majority.
proof fn lemma_winner_has_votes(c: Cluster, h: History, step: Step)
    requires
        invariant_holds(c, h),
        enabled(c, step),
        step is Win,
    ensures
        ({
            let id = actor(step);
            let t = c.members[id].node.state.current_term;
            let voters = step->voters.insert(id);
            &&& voters.finite()
            &&& voters.subset_of(c.members.dom())
            &&& voters.len() >= majority_of((c.members.dom().len() - 1) as nat)
            &&& c.members[id].node.peers.len() == c.members.dom().len() - 1
            &&& forall|v: Seq<char>| #[trigger]
                voters.contains(v) ==> h.ballots.contains_key((v, t)) && h.ballots[(
                    v,
                    t,
                )].candidate == id
            &&& h.reigns.contains_key(t) ==> h.reigns[t].leader == id
        }),
{
    let id = actor(step);
    let m = c.members[id];
    let t = m.node.state.current_term;
    let request = step->Win_request;
    let voters = step->voters.insert(id);
    let dom = c.members.dom();
    m.node.peers.unique_seq_to_set();
    assert(dom.remove(id).len() == dom.len() - 1);
    vstd::set_lib::lemma_set_subset_finite(dom.remove(id), step->voters);
    assert(request_ok(h, request));
    assert forall|v: Seq<char>| #[trigger] voters.contains(v) implies h.ballots.contains_key((v, t))
        && h.ballots[(v, t)].candidate == id by {
        if v != id {
            assert(step->voters.contains(v));
            assert(has_granted(c, v, request));
            let term = choose|term: u64|
                c.sent.contains(
                    Message::Reply {
                        from: v,
                        request,
                        response: #[trigger] vote_granted_in(term),
                    },
                );
            assert(grant_ok(h, v, request));
        }
    }
    if h.reigns.contains_key(t) {
        let r = h.reigns[t];
        assert(reign_ok(c, h, t));
        law_majorities_meet(dom, voters, r.voter_logs.dom(), (dom.len() - 1) as nat);
        let v = choose|v: Seq<char>| voters.contains(v) && r.voter_logs.dom().contains(v);
        assert(r.voter_logs.contains_key(v));
    }
}

#[verifier::rlimit(40)]
proof fn lemma_win(c: Cluster, h: History, step: Step)
    requires
        invariant_holds(c, h),
        enabled(c, step),
        step is Win,
    ensures
        invariant_holds(after_step(c, step), recorded(h, c, step)),
{
    let id = actor(step);
    let (c2, h2) = (after_step(c, step), recorded(h, c, step));
    let (m, m2) = (c.members[id], c2.members[id]);
    let t = m.node.state.current_term;
    lemma_winner_has_votes(c, h, step);
    assert(c2.sent =~= c.sent);
    assert(log_ok(h, m));
    assert(leader_ok(h, id, m));
    assert(request_ok(h, step->Win_request));
    assert(ballot_ok(c, h, id, t));
    assert(extends(h, h2)) by {
        assert forall|s: u64| #[trigger] h.reigns.contains_key(s) implies h2.reigns[s].log.take(
            h.reigns[s].log.len() as int,
        ) == h.reigns[s].log by {
            assert(h.reigns[s].log.take(h.reigns[s].log.len() as int) =~= h.reigns[s].log);
        }
    }
    assert(framed(c, h, c2, h2, id));
    lemma_frame_shape(c, h, c2, h2, id);
    lemma_frame_votes(c, h, c2, h2, id);
    lemma_frame_reigns(c, h, c2, h2, id);
    lemma_frame_members(c, h, c2, h2, id);
    lemma_frame_messages(c, h, c2, h2, id);
    lemma_frame_kept(c, h, c2, h2, id);
    lemma_rooted_extends(h, h2, m.log.entries);
    assert(ballots_ok(c2, h2));
    assert(requests_ok(c2, h2));
    if !h.reigns.contains_key(t) {
        let r = h2.reigns[t];
        let log = m.log.entries;
        assert(r.voter_logs.dom() =~= step->voters.insert(id));
        assert(log.take(log.len() as int) =~= log);
        if log.len() > 0 {
            lemma_rooted_terms(c, h, log, 1);
            lemma_rooted_consistent(c, h, log);
        }
        assert forall|k: int| 0 <= k < log.len() implies (#[trigger] log[k]).term < t by {
            lemma_rooted_terms(c, h, log, k + 1);
        }
        assert(reign_ok(c2, h2, t));
    }
    assert(reigns_ok(c2, h2));
    assert(log_ok(h2, m2));
    assert(logs_ok(c2, h2));
    assert(leader_ok(h2, id, m2));
    assert(leaders_ok(c2, h2));
    assert(appends_ok(c2, h2));
    assert(held_ok(c2, h2));
    assert(cursors_ok(c2, h2));
    assert forall|v: Seq<char>, t0: u64, u: int| #[trigger] h2.held.contains((v, t0, u)) implies kept(
        h2,
        c2.members[v].log.entries,
        t0,
        u,
        c2.members[v].node.state.current_term as int,
    ) by {
        assert(h.held.contains((v, t0, u)));
        if v == id {
            lemma_kept_extends(h, h2, m.log.entries, t0, u, t as int, t as int);
        }
    }
    assert forall|v: Seq<char>, t0: u64, u: int, s: u64|
        #![trigger h2.held.contains((v, t0, u)), h2.reigns.contains_key(s)]
        h2.held.contains((v, t0, u)) && h2.reigns.contains_key(s) && t0 < s
            && h2.reigns[s].voter_logs.contains_key(v) implies kept(
        h2,
        h2.reigns[s].voter_logs[v],
        t0,
        u,
        s - 1,
    ) by {
        assert(h.held.contains((v, t0, u)));
        if !h.reigns.contains_key(s) {
            // The ballots were cast before anyone had won this term.
            let log = h.ballots[(v, s)].log;
            assert(step->voters.insert(id).contains(v));
            assert(h.ballots.contains_key((v, s)));
            assert(kept(h, log, t0, u, s as int));
            assert forall|k: int| h.reigns[t0].start.len() < k <= u implies #[trigger] survives(
                h,
                log,
                t0,
                k,
                s - 1,
            ) by {
                assert(survives(h, log, t0, k, s as int));
                if !holds(h, log, t0, k) {
                    let w = choose|w: u64| #[trigger]
                        h.reigns.contains_key(w) && t0 < w <= s && !holds(
                            h,
                            h.reigns[w].start,
                            t0,
                            k,
                        );
                    assert(w != s);
                }
            }
            lemma_kept_extends(h, h2, log, t0, u, s - 1, s - 1);
        }
    }
    assert(kept_ok(c2, h2));
}

/// A rooted log is consistent.
pub proof fn lemma_rooted_consistent(c: Cluster, h: History, log: Seq<LogEntryView>)
    requires
        reigns_ok(c, h),
        rooted(h, log),
        log.len() > 0,
    ensures
        consistent(log),
{
    let n = log.len() as int;
    assert(rooted_at(h, log, n));
    let whole = h.reigns[log[n - 1].term].log;
    assert(reign_ok(c, h, log[n - 1].term));
    assert(log.take(n) =~= log);
    assert forall|i: int| 0 <= i < n implies log[i] == whole[i] by {
        assert(log[i] == log.take(n)[i]);
        assert(whole[i] == whole.take(n)[i]);
    }
}

proof fn lemma_write(c: Cluster, h: History, step: Step)
    requires
        invariant_holds(c, h),
        enabled(c, step),
        step is Write,
    ensures
        invariant_holds(after_step(c, step), recorded(h, c, step)),
{
    let id = actor(step);
    let (c2, h2) = (after_step(c, step), recorded(h, c, step));
    let (m, m2) = (c.members[id], c2.members[id]);
    let t = m.node.state.current_term;
    let entry = next_entry(m, step->Write_command);
    let (log, log2) = (m.log.entries, m2.log.entries);
    assert(c2.sent =~= c.sent);
    assert(log_ok(h, m));
    assert(leader_ok(h, id, m));
    assert(reign_ok(c, h, t));
    assert(extends(h, h2)) by {
        assert forall|s: u64| #[trigger] h.reigns.contains_key(s) implies h2.reigns[s].log.take(
            h.reigns[s].log.len() as int,
        ) == h.reigns[s].log by {
            assert(h2.reigns[s].log.take(h.reigns[s].log.len() as int) =~= h.reigns[s].log);
        }
    }
    assert(framed(c, h, c2, h2, id));
    lemma_frame_shape(c, h, c2, h2, id);
    lemma_frame_votes(c, h, c2, h2, id);
    lemma_frame_reigns(c, h, c2, h2, id);
    lemma_frame_members(c, h, c2, h2, id);
    lemma_frame_messages(c, h, c2, h2, id);
    lemma_frame_kept(c, h, c2, h2, id);
    assert(rooted(h2, log2)) by {
        lemma_rooted_extends(h, h2, log);
        assert forall|k: int| 1 <= k <= log2.len() implies #[trigger] rooted_at(h2, log2, k) by {
            if k <= log.len() {
                assert(rooted_at(h2, log, k));
                assert(log2.take(k) =~= log.take(k));
            }
        }
    }
    assert(ballots_ok(c2, h2));
    assert(requests_ok(c2, h2));
    assert(reign_ok(c2, h2, t)) by {
        let (r, r2) = (h.reigns[t], h2.reigns[t]);
        assert(r2.log.take(r.start.len() as int) =~= r.log.take(r.start.len() as int));
        assert(consistent(r2.log)) by {
            assert forall|i: int, j: int| 0 <= i <= j < r2.log.len() implies (
            #[trigger] r2.log[i]).term <= (#[trigger] r2.log[j]).term by {
                if i < r.log.len() {
                    assert(r2.log[i] == r.log[i]);
                }
            }
        }
        assert(h2.ballots == h.ballots);
        assert(r2.voter_logs == r.voter_logs);
        assert forall|v: Seq<char>| #[trigger] r2.voter_logs.contains_key(v) implies {
            &&& h2.ballots.contains_key((v, t))
            &&& h2.ballots[(v, t)].candidate == r2.leader
            &&& h2.ballots[(v, t)].log == r2.voter_logs[v]
        } by {
            assert(r.voter_logs.contains_key(v));
        }
        assert forall|k: int| 0 <= k < r2.start.len() implies (#[trigger] r2.log[k]).term < t by {
            assert(r2.log[k] == r.log[k]);
        }
        assert forall|k: int| r2.start.len() <= k < r2.log.len() implies (
        #[trigger] r2.log[k]).term == t by {
            if k < r.log.len() {
                assert(r2.log[k] == r.log[k]);
            }
        }
    }
    assert(reigns_ok(c2, h2));
    assert forall|k: int| 0 <= k < log2.len() implies (#[trigger] log2[k]).term <= t by {
        if k < log.len() {
            assert(log2[k] == log[k]);
        }
    }
    assert(log_ok(h2, m2));
    assert(logs_ok(c2, h2));
    assert(leader_ok(h2, id, m2));
    assert(leaders_ok(c2, h2));
    assert(appends_ok(c2, h2));
    assert(held_ok(c2, h2));
    assert forall|p: Seq<char>| #[trigger] c.members.contains_key(p) implies cursor_ok(
        h2,
        m2.node,
        p,
    ) by {
        assert(cursor_ok(h, m.node, p));
    }
    assert(cursors_ok(c2, h2));
    lemma_new_held(c, h, h2, id, t, log2.len() as int);
    assert forall|v: Seq<char>, t0: u64, u: int| #[trigger] h2.held.contains((v, t0, u)) implies kept(
        h2,
        c2.members[v].log.entries,
        t0,
        u,
        c2.members[v].node.state.current_term as int,
    ) by {
        if h.held.contains((v, t0, u)) {
            if v == id {
                lemma_kept_extends(h, h2, log, t0, u, t as int, t as int);
                assert forall|k: int| h2.reigns[t0].start.len() < k <= u implies #[trigger] survives(
                    h2,
                    log2,
                    t0,
                    k,
                    t as int,
                ) by {
                    assert(survives(h2, log, t0, k, t as int));
                    if holds(h2, log, t0, k) {
                        assert(log2.take(k) =~= log.take(k));
                    }
                }
            }
        } else {
            assert forall|k: int| h2.reigns[t].start.len() < k <= u implies #[trigger] survives(
                h2,
                log2,
                t,
                k,
                t as int,
            ) by {
                assert(holds(h2, log2, t, k));
            }
        }
    }
    assert(kept_ok(c2, h2));
}

/// What is newly held in a member's current term bears on no vote yet: it has
/// voted in no later one.
proof fn lemma_new_held(c: Cluster, h: History, h2: History, id: Seq<char>, t: u64, u: int)
    requires
        invariant_holds(c, h),
        h2.ballots == h.ballots,
        h2.held == h.held.insert((id, t, u)),
        forall|s: u64| #[trigger]
            h2.reigns.contains_key(s) ==> h.reigns.contains_key(s) && h2.reigns[s].voter_logs
                == h.reigns[s].voter_logs,
        c.members.contains_key(id),
        c.members[id].node.state.current_term <= t,
    ensures
        forall|s: u64| #[trigger] h2.ballots.contains_key((id, s)) ==> s <= t,
        forall|s: u64| #[trigger]
            h2.reigns.contains_key(s) && h2.reigns[s].voter_logs.contains_key(id) ==> s <= t,
{
    assert forall|s: u64| #[trigger] h2.ballots.contains_key((id, s)) implies s <= t by {
        assert(ballot_ok(c, h, id, s));
    }
    assert forall|s: u64| #[trigger]
        h2.reigns.contains_key(s) && h2.reigns[s].voter_logs.contains_key(id) implies s <= t by {
        assert(reign_ok(c, h, s));
        assert(h.reigns[s].voter_logs.contains_key(id));
        assert(h.ballots.contains_key((id, s)));
        assert(ballot_ok(c, h, id, s));
    }
}

/// Taking entries leaves one offset per entry.
proof fn lemma_offsets_stay(
    log: LogState,
    entries: Seq<LogEntryView>,
    payloads: Seq<Seq<u8>>,
    performed: int,
)
    requires
        log.entries.len() == log.offsets.len(),
    ensures
        ({
            let after = after_append(log, entries, payloads, performed);
            after.entries.len() == after.offsets.len()
        }),
{
    crate::raft_log::lemma_first_new(log.entries, entries, 0);
    let from = first_new(log.entries, entries, 0);
    let base = log.cut(crate::raft_log::kept_len(log.entries, entries));
    let cuts: int = if base.entries.len() < log.entries.len() {
        1
    } else {
        0
    };
    lemma_offsets_grow(base, entries, payloads, from, from + performed - cuts);
}

proof fn lemma_offsets_grow(
    base: LogState,
    entries: Seq<LogEntryView>,
    payloads: Seq<Seq<u8>>,
    from: int,
    to: int,
)
    requires
        base.entries.len() == base.offsets.len(),
    ensures
        ({
            let grown = base.grown_by(entries, payloads, from, to);
            grown.entries.len() == grown.offsets.len()
        }),
    decreases to - from,
{
    if from < to {
        lemma_offsets_grow(base, entries, payloads, from, to - 1);
    }
}

/// What a member has held of earlier terms and of this one stays when it takes
/// entries from this term's leader, unless this term was won without it.
proof fn lemma_taking_keeps(
    c: Cluster,
    h: History,
    id: Seq<char>,
    term: u64,
    prev: int,
    upto: int,
    payloads: Seq<Seq<u8>>,
    performed: int,
    t0: u64,
    u: int,
)
    requires
        invariant_holds(c, h),
        c.members.contains_key(id),
        c.members[id].node.state.current_term <= term,
        h.reigns.contains_key(term),
        h.held.contains((id, t0, u)),
        0 <= prev <= upto <= h.reigns[term].log.len(),
        prev <= c.members[id].log.entries.len(),
        payloads.len() == upto - prev,
        0 <= performed <= append_op_count(
            c.members[id].log,
            h.reigns[term].log.subrange(prev, upto),
            payloads,
        ),
    ensures
        kept(
            h,
            after_append(
                c.members[id].log,
                h.reigns[term].log.subrange(prev, upto),
                payloads,
                performed,
            ).entries,
            t0,
            u,
            term as int,
        ),
{
    let m = c.members[id];
    let leader = h.reigns[term].log;
    let entries = leader.subrange(prev, upto);
    let after = after_append(m.log, entries, payloads, performed).entries;
    let old = m.node.state.current_term as int;
    assert(reign_ok(c, h, term));
    assert(reign_ok(c, h, t0));
    lemma_op_count(m.log, entries, payloads);
    assert(kept(h, m.log.entries, t0, u, old));
    assert forall|k: int| h.reigns[t0].start.len() < k <= u implies #[trigger] survives(
        h,
        after,
        t0,
        k,
        term as int,
    ) by {
        assert(survives(h, m.log.entries, t0, k, old));
        if holds(h, m.log.entries, t0, k) {
            let start = h.reigns[term].start;
            if t0 == term || holds(h, start, t0, k) {
                if t0 != term {
                    lemma_take_of_prefix(start, leader, k);
                }
                law_agreeing_entries_stay(m.log, leader, k, prev, upto, payloads, performed);
                assert(holds(h, after, t0, k));
            } else {
                assert(h.reigns.contains_key(term));
                assert(lost(h, t0, k, term as int));
            }
        }
    }
}

#[verifier::rlimit(40)]
proof fn lemma_take(c: Cluster, h: History, step: Step)
    requires
        invariant_holds(c, h),
        enabled(c, step),
        step is Take,
    ensures
        invariant_holds(after_step(c, step), recorded(h, c, step)),
{
    let id = actor(step);
    let request = step->Take_request;
    let payloads = step->payloads;
    let performed = step->performed;
    let (c2, h2) = (after_step(c, step), recorded(h, c, step));
    let (m, m2) = (c.members[id], c2.members[id]);
    let term = request->AppendEntries_term;
    let entries = request->AppendEntries_entries;
    let prev = request->prev_log_index as int;
    let upto = prev + entries.len();
    let (old, t) = (m.node.state.current_term, m2.node.state.current_term);
    let (log, log2) = (m.log.entries, m2.log.entries);
    let leader = h.reigns[term].log;
    let taken = accepts(m, request, payloads, performed);
    assert(append_ok(h, id, request));
    assert(reign_ok(c, h, term));
    assert(log_ok(h, m));
    assert(leader_ok(h, id, m));
    if term < old {
        assert(c2.members =~= c.members);
        assert(c2.sent =~= c.sent);
    } else {
        let matched = matches_at(log, prev, request->AppendEntries_prev_log_term);
        if matched {
            if prev > 0 {
                lemma_rooted_terms(c, h, log, prev);
            }
            assert(prev + entries.len() <= leader.len() && entries == leader.subrange(prev, upto));
            lemma_rooted_share(h, log, leader);
            let after = lemma_taken(m.log, leader, prev, upto, payloads, performed);
            lemma_offsets_stay(m.log, entries, payloads, performed);
            assert(log2 == after);
            if log2 != log {
                lemma_rooted_take(h, leader, log2.len() as int);
                assert forall|k: int| 0 <= k < log2.len() implies (#[trigger] log2[k]).term
                    <= term by {
                    assert(log2[k] == leader[k]);
                }
            }
        }
        assert(t == term);
        lemma_extends_same_reigns(h, h2);
        assert(framed(c, h, c2, h2, id));
        lemma_frame_shape(c, h, c2, h2, id);
        lemma_frame_votes(c, h, c2, h2, id);
        lemma_frame_reigns(c, h, c2, h2, id);
        lemma_frame_members(c, h, c2, h2, id);
        lemma_frame_messages(c, h, c2, h2, id);
        lemma_frame_kept(c, h, c2, h2, id);
        lemma_rooted_extends(h, h2, log2);
        assert(ballots_ok(c2, h2)) by {
            assert(h2.ballots == h.ballots);
        }
        assert(requests_ok(c2, h2)) by {
            assert forall|v: Seq<char>, r: CommandView, s: u64| #[trigger]
                c2.sent.contains(
                    Message::Reply { from: v, request: r, response: vote_granted_in(s) },
                ) implies grant_ok(h2, v, r) by {
                assert(c.sent.contains(
                    Message::Reply { from: v, request: r, response: vote_granted_in(s) },
                ));
            }
        }
        assert(reigns_ok(c2, h2));
        assert(log_ok(h2, m2));
        assert(logs_ok(c2, h2));
        assert(m2.node.role != Role::Leader);
        assert(leader_ok(h2, id, m2));
        assert(leaders_ok(c2, h2));
        assert(appends_ok(c2, h2));
        assert(held_ok(c2, h2)) by {
            assert forall|v: Seq<char>, r: CommandView, s: u64, index: u64| #[trigger]
                c2.sent.contains(
                    Message::Reply { from: v, request: r, response: acknowledgement(s, index) },
                ) implies (r matches CommandView::AppendEntries { term: sent_term, .. }
                && h2.held.contains((v, sent_term, index as int))) by {
                if !c.sent.contains(
                    Message::Reply { from: v, request: r, response: acknowledgement(s, index) },
                ) {
                    assert(taken && v == id && r == request && index == upto);
                }
            }
        }
        assert(cursors_ok(c2, h2));
        if taken {
            lemma_new_held(c, h, h2, id, term, upto);
        }
        assert forall|v: Seq<char>, t0: u64, u: int| #[trigger] h2.held.contains((v, t0, u)) implies kept(
            h2,
            c2.members[v].log.entries,
            t0,
            u,
            c2.members[v].node.state.current_term as int,
        ) by {
            if h.held.contains((v, t0, u)) {
                if v == id {
                    if matched {
                        lemma_taking_keeps(
                            c,
                            h,
                            id,
                            term,
                            prev,
                            upto,
                            payloads,
                            performed,
                            t0,
                            u,
                        );
                        lemma_kept_extends(h, h2, log2, t0, u, term as int, term as int);
                    } else {
                        lemma_kept_extends(h, h2, log, t0, u, old as int, term as int);
                    }
                }
            } else {
                assert forall|k: int| h2.reigns[term].start.len() < k <= u implies #[trigger] survives(
                    h2,
                    log2,
                    term,
                    k,
                    term as int,
                ) by {
                    assert(log2.take(upto).take(k) =~= log2.take(k));
                    assert(leader.take(upto).take(k) =~= leader.take(k));
                    assert(holds(h2, log2, term, k));
                }
            }
        }
        assert(kept_ok(c2, h2));
    }
}

/// The steps that change neither a log nor the history.
proof fn lemma_other_step(c: Cluster, h: History, step: Step)
    requires
        invariant_holds(c, h),
        enabled(c, step),
        step is Lose || step is Acknowledge || step is BackUp || step is Recount || step is Restart,
    ensures
        invariant_holds(after_step(c, step), recorded(h, c, step)),
{
    let id = actor(step);
    let c2 = after_step(c, step);
    let (m, m2) = (c.members[id], c2.members[id]);
    lemma_extends_same_reigns(h, h);
    assert(c2.sent =~= c.sent);
    assert(framed(c, h, c2, h, id));
    assert forall|p: Seq<char>| #[trigger] c.members.contains_key(p) implies cursor_ok(
        h,
        m2.node,
        p,
    ) by {
        assert(cursor_ok(h, m.node, p));
    }
    lemma_quiet_step(c, h, c2, id);
}

/// What every step keeps.
pub proof fn lemma_step(c: Cluster, h: History, step: Step)
    requires
        invariant_holds(c, h),
        enabled(c, step),
    ensures
        invariant_holds(after_step(c, step), recorded(h, c, step)),
        extends(h, recorded(h, c, step)),
{
    match step {
        Step::Campaign { .. } => {
            lemma_campaign(c, h, step);
        },
        Step::Vote { .. } => {
            lemma_vote(c, h, step);
        },
        Step::Win { .. } => {
            lemma_win(c, h, step);
        },
        Step::Write { .. } => {
            lemma_write(c, h, step);
        },
        Step::Send { .. } => {
            lemma_send(c, h, step);
        },
        Step::Take { .. } => {
            lemma_take(c, h, step);
        },
        Step::Hear { .. } => {
            lemma_hear(c, h, step);
        },
        _ => {
            lemma_other_step(c, h, step);
        },
    }
    lemma_recorded_extends(c, h, step);
}

/// A step rewrites nothing of the history.
proof fn lemma_recorded_extends(c: Cluster, h: History, step: Step)
    requires
        invariant_holds(c, h),
        enabled(c, step),
    ensures
        extends(h, recorded(h, c, step)),
{
    let id = actor(step);
    let h2 = recorded(h, c, step);
    let m = c.members[id];
    assert(leader_ok(h, id, m));
    if step is Campaign {
        let t = (m.node.state.current_term + 1) as u64;
        if h.ballots.contains_key((id, t)) {
            assert(ballot_ok(c, h, id, t));
        }
    }
    assert forall|t: u64| #[trigger] h.reigns.contains_key(t) implies h2.reigns[t].log.take(
        h.reigns[t].log.len() as int,
    ) == h.reigns[t].log by {
        assert(h2.reigns[t].log.take(h.reigns[t].log.len() as int) =~= h.reigns[t].log);
    }
}

/// The invariant holds at every moment of a run.
pub proof fn lemma_run(start: Cluster, steps: Seq<Step>, n: int)
    requires
        can_run(start, steps),
        0 <= n <= steps.len(),
    ensures
        invariant_holds(after_steps(start, steps, n), history(start, steps, n)),
    decreases n,
{
    if n > 0 {
        lemma_run(start, steps, n - 1);
        assert(enabled(after_steps(start, steps, n - 1), steps[n - 1]));
        lemma_step(
            after_steps(start, steps, n - 1),
            history(start, steps, n - 1),
            steps[n - 1],
        );
    }
}

/// The history of a run only grows.
pub proof fn lemma_history_extends(start: Cluster, steps: Seq<Step>, i: int, j: int)
    requires
        can_run(start, steps),
        0 <= i <= j <= steps.len(),
    ensures
        extends(history(start, steps, i), history(start, steps, j)),
    decreases j - i,
{
    if i < j {
        lemma_history_extends(start, steps, i, j - 1);
        lemma_run(start, steps, j - 1);
        assert(enabled(after_steps(start, steps, j - 1), steps[j - 1]));
        let (a, b, c) = (
            history(start, steps, i),
            history(start, steps, j - 1),
            history(start, steps, j),
        );
        lemma_step(after_steps(start, steps, j - 1), b, steps[j - 1]);
        assert forall|t: u64| #[trigger] a.reigns.contains_key(t) implies c.reigns[t].log.take(
            a.reigns[t].log.len() as int,
        ) == a.reigns[t].log by {
            assert(b.reigns.contains_key(t));
            lemma_take_of_prefix(
                b.reigns[t].log,
                c.reigns[t].log,
                a.reigns[t].log.len() as int,
            );
        }
    } else {
        let h = history(start, steps, i);
        lemma_extends_same_reigns(h, h);
    }
}

} // verus!
