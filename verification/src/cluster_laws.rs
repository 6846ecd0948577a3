//! What a cluster promises, whatever its members do, whichever of them die, and
//! whatever is lost, repeated or late on the way: one leader per term, logs that agree
//! wherever they meet, and committed writes that stay. It rests on what
//! [`crate::cluster`] says a member that comes back still has.

use crate::cluster::{
    accepts,
    actor,
    after_step,
    after_steps,
    can_run,
    commits,
    enabled,
    leads,
    log_of,
    next_entry,
    term_of,
    Cluster,
    Step,
};
use crate::cluster_commit::{
    backed,
    commits_ok,
    held_up_to,
    lemma_commit_is_held,
    lemma_commits_run,
    lemma_leader_has_committed,
    lemma_majority_stays,
    lemma_members_stay,
    lemma_step_keeps_committed,
    lemma_take_agrees,
    lemma_winners_are_complete,
    majority_held,
};
use crate::cluster_invariant::{
    history,
    holds,
    invariant_holds,
    kept,
    leader_ok,
    lemma_history_extends,
    lemma_rooted_terms,
    lemma_run,
    lemma_take_of_prefix,
    log_ok,
    lost,
    reign_ok,
    rooted_at,
    survives,
    History,
};
use crate::kv::{law_replay_composes, replayed, replayed_onto};
use crate::message::{CommandView, LogEntryView, ResponseView};
use crate::node::{min, routed, settled, NodeView, RouteView};
use crate::node_laws::{
    law_committing_keeps_the_mirror,
    law_read_gives_the_last_committed_write,
    law_restart_replays_the_committed_prefix,
    mirrors,
};
use crate::quorum::majority_of;
use crate::raft_log::term_at;
use crate::state::RaftStateView;
use vstd::prelude::*;

verus! {

/// No term ever has two leaders, not even at different times.
pub proof fn law_one_leader_per_term(
    start: Cluster,
    steps: Seq<Step>,
    i: int,
    j: int,
    a: Seq<char>,
    b: Seq<char>,
)
    requires
        can_run(start, steps),
        0 <= i <= j <= steps.len(),
        leads(after_steps(start, steps, i), a),
        leads(after_steps(start, steps, j), b),
        term_of(after_steps(start, steps, i), a) == term_of(after_steps(start, steps, j), b),
    ensures
        a == b,
{
    lemma_run(start, steps, i);
    lemma_run(start, steps, j);
    lemma_history_extends(start, steps, i, j);
    let t = term_of(after_steps(start, steps, i), a);
    assert(leader_ok(history(start, steps, i), a, after_steps(start, steps, i).members[a]));
    assert(leader_ok(history(start, steps, j), b, after_steps(start, steps, j).members[b]));
    assert(history(start, steps, i).reigns.contains_key(t));
}

/// A matching entry implies matching history: where the logs of two members have an
/// entry of the same term at the same index, they are the same up to it.
pub proof fn law_logs_match(
    start: Cluster,
    steps: Seq<Step>,
    n: int,
    a: Seq<char>,
    b: Seq<char>,
    index: int,
)
    requires
        can_run(start, steps),
        0 <= n <= steps.len(),
        after_steps(start, steps, n).members.contains_key(a),
        after_steps(start, steps, n).members.contains_key(b),
        1 <= index <= log_of(after_steps(start, steps, n), a).len(),
        term_at(log_of(after_steps(start, steps, n), a), index) == term_at(
            log_of(after_steps(start, steps, n), b),
            index,
        ),
    ensures
        log_of(after_steps(start, steps, n), a).take(index) == log_of(
            after_steps(start, steps, n),
            b,
        ).take(index),
{
    let c = after_steps(start, steps, n);
    let h = history(start, steps, n);
    lemma_run(start, steps, n);
    assert(log_ok(h, c.members[a]));
    assert(log_ok(h, c.members[b]));
    assert(rooted_at(h, log_of(c, a), index));
    assert(rooted_at(h, log_of(c, b), index));
}

/// A leader never gives up an entry of its log while its term lasts.
pub proof fn law_leader_only_appends(
    start: Cluster,
    steps: Seq<Step>,
    i: int,
    j: int,
    leader: Seq<char>,
)
    requires
        can_run(start, steps),
        0 <= i <= j <= steps.len(),
        leads(after_steps(start, steps, i), leader),
        leads(after_steps(start, steps, j), leader),
        term_of(after_steps(start, steps, i), leader) == term_of(
            after_steps(start, steps, j),
            leader,
        ),
    ensures
        ({
            let before = log_of(after_steps(start, steps, i), leader);
            let after = log_of(after_steps(start, steps, j), leader);
            &&& before.len() <= after.len()
            &&& after.take(before.len() as int) == before
        }),
{
    lemma_run(start, steps, i);
    lemma_run(start, steps, j);
    lemma_history_extends(start, steps, i, j);
    let t = term_of(after_steps(start, steps, i), leader);
    let h = history(start, steps, i);
    assert(leader_ok(h, leader, after_steps(start, steps, i).members[leader]));
    assert(leader_ok(
        history(start, steps, j),
        leader,
        after_steps(start, steps, j).members[leader],
    ));
    assert(h.reigns.contains_key(t));
}

/// Committed writes stay: what a leader has committed by counting copies is at the
/// same place in the log of every leader of the same or a later term, whoever that
/// is, and whichever members died or were cut off in between.
pub proof fn law_committed_entries_survive(
    start: Cluster,
    steps: Seq<Step>,
    i: int,
    j: int,
    leader: Seq<char>,
    later: Seq<char>,
    index: int,
)
    requires
        can_run(start, steps),
        0 <= i <= j <= steps.len(),
        commits(after_steps(start, steps, i), leader, index),
        leads(after_steps(start, steps, j), later),
        term_of(after_steps(start, steps, i), leader) <= term_of(
            after_steps(start, steps, j),
            later,
        ),
    ensures
        ({
            let committed = log_of(after_steps(start, steps, i), leader);
            let log = log_of(after_steps(start, steps, j), later);
            &&& index <= committed.len()
            &&& index <= log.len()
            &&& log.take(index) == committed.take(index)
        }),
{
    let (c, c2) = (after_steps(start, steps, i), after_steps(start, steps, j));
    let (h, h2) = (history(start, steps, i), history(start, steps, j));
    let (t, s) = (term_of(c, leader), term_of(c2, later));
    let k = c.members[leader].node.counting(log_of(c, leader)).state.commit_index as int;
    lemma_run(start, steps, i);
    lemma_run(start, steps, j);
    lemma_history_extends(start, steps, i, j);
    lemma_members_stay(start, steps, i);
    lemma_members_stay(start, steps, j);
    assert(leader_ok(h, leader, c.members[leader]));
    assert(leader_ok(h2, later, c2.members[later]));
    assert(reign_ok(c2, h2, s));
    let holders = lemma_commit_is_held(c, h, leader, k);
    let committed = log_of(c, leader);
    let log = log_of(c2, later);
    assert(committed == h.reigns[t].log);
    assert(h.reigns.contains_key(t));
    lemma_take_of_prefix(committed, h2.reigns[t].log, k);
    if s > t {
        lemma_majority_stays(c, h, c2, h2, holders, t, k);
        lemma_winners_are_complete(c2, h2, holders, t, k, s);
        lemma_take_of_prefix(h2.reigns[s].start, log, k);
    }
    assert(log.take(k) == committed.take(k));
    assert(log.take(k).take(index) =~= log.take(index));
    assert(committed.take(k).take(index) =~= committed.take(index));
}

/// Whether the member's log begins with the first `index` entries of `committed`.
pub open spec fn has_entries(
    c: Cluster,
    id: Seq<char>,
    committed: Seq<LogEntryView>,
    index: int,
) -> bool {
    index <= log_of(c, id).len() && log_of(c, id).take(index) == committed.take(index)
}

/// Committed entries are never truncated: from the moment on at which a leader has
/// committed them by counting copies, there is a majority of the members whose logs
/// all have them, so that they outlive the loss of any minority.
pub proof fn law_a_majority_keeps_committed_entries(
    start: Cluster,
    steps: Seq<Step>,
    i: int,
    j: int,
    leader: Seq<char>,
    index: int,
)
    requires
        can_run(start, steps),
        0 <= i <= j <= steps.len(),
        commits(after_steps(start, steps, i), leader, index),
    ensures
        ({
            let committed = log_of(after_steps(start, steps, i), leader);
            let c = after_steps(start, steps, j);
            exists|holders: Set<Seq<char>>|
                {
                    &&& holders.finite()
                    &&& #[trigger] holders.subset_of(c.members.dom())
                    &&& holders.len() >= majority_of((c.members.dom().len() - 1) as nat)
                    &&& forall|q: Seq<char>| #[trigger]
                        holders.contains(q) ==> has_entries(c, q, committed, index)
                }
        }),
{
    let (c, c2) = (after_steps(start, steps, i), after_steps(start, steps, j));
    let (h, h2) = (history(start, steps, i), history(start, steps, j));
    let t = term_of(c, leader);
    let k = c.members[leader].node.counting(log_of(c, leader)).state.commit_index as int;
    lemma_run(start, steps, i);
    lemma_run(start, steps, j);
    lemma_history_extends(start, steps, i, j);
    lemma_members_stay(start, steps, i);
    lemma_members_stay(start, steps, j);
    assert(leader_ok(h, leader, c.members[leader]));
    let holders = lemma_commit_is_held(c, h, leader, k);
    let committed = log_of(c, leader);
    assert(h.reigns.contains_key(t));
    lemma_majority_stays(c, h, c2, h2, holders, t, k);
    lemma_take_of_prefix(committed, h2.reigns[t].log, k);
    assert forall|q: Seq<char>| #[trigger] holders.contains(q) implies has_entries(
        c2,
        q,
        committed,
        index,
    ) by {
        let log = log_of(c2, q);
        let term = c2.members[q].node.state.current_term as int;
        assert(held_up_to(h2, q, t, k));
        let u = choose|u: int| u >= k && #[trigger] h2.held.contains((q, t, u));
        assert(kept(h2, log, t, u, term));
        assert(survives(h2, log, t, k, term));
        if lost(h2, t, k, term) {
            let w = choose|w: u64| #[trigger]
                h2.reigns.contains_key(w) && t < w <= term && !holds(
                    h2,
                    h2.reigns[w].start,
                    t,
                    k,
                );
            lemma_winners_are_complete(c2, h2, holders, t, k, w);
        }
        assert(log.take(k).take(index) =~= log.take(index));
        assert(committed.take(k).take(index) =~= committed.take(index));
    }
    assert(holders.subset_of(c2.members.dom()));
}

/// A follower that takes a whole message agrees with the leader that sent it up to
/// the last entry sent, which is as far as it then commits.
pub proof fn law_follower_agrees_with_the_sender(
    start: Cluster,
    steps: Seq<Step>,
    i: int,
    j: int,
)
    requires
        can_run(start, steps),
        0 <= i < j < steps.len(),
        steps[i] matches Step::Send { id, peer } && steps[j] matches Step::Take {
            id: taker,
            request,
            payloads,
            performed,
        } && {
            let sender = after_steps(start, steps, i).members[id];
            &&& taker == peer
            &&& request == sender.node.append_message(peer, sender.log.entries)
            &&& accepts(after_steps(start, steps, j).members[peer], request, payloads, performed)
        },
    ensures
        ({
            let sent = log_of(after_steps(start, steps, i), steps[i]->Send_id);
            let taken = log_of(after_steps(start, steps, j + 1), steps[j]->Take_id);
            let request = steps[j]->Take_request;
            let upto = request->prev_log_index + request->AppendEntries_entries.len();
            &&& upto <= sent.len()
            &&& upto <= taken.len()
            &&& taken.take(upto) == sent.take(upto)
        }),
{
    let (c, c2) = (after_steps(start, steps, i), after_steps(start, steps, j));
    let (h, h2) = (history(start, steps, i), history(start, steps, j));
    let request = steps[j]->Take_request;
    let t = request->AppendEntries_term;
    let upto = request->prev_log_index + request->AppendEntries_entries.len();
    lemma_run(start, steps, i);
    lemma_run(start, steps, j);
    lemma_history_extends(start, steps, i, j);
    assert(enabled(c, steps[i]) && enabled(c2, steps[j]));
    lemma_sent_piece(c, h, steps[i]);
    lemma_take_agrees(c2, h2, steps[j]);
    lemma_take_of_prefix(h.reigns[t].log, h2.reigns[t].log, upto);
}

/// A message is made from the log of its term's leader.
proof fn lemma_sent_piece(c: Cluster, h: History, step: Step)
    requires
        invariant_holds(c, h),
        enabled(c, step),
        step is Send,
    ensures
        ({
            let m = c.members[step->Send_id];
            let message = m.node.append_message(step->Send_peer, m.log.entries);
            let t = m.node.state.current_term;
            &&& message is AppendEntries
            &&& message->AppendEntries_term == t
            &&& h.reigns.contains_key(t)
            &&& h.reigns[t].log == m.log.entries
            &&& message->AppendEntries_prev_log_term == 0 && message->prev_log_index > 0
                || message->prev_log_index + message->AppendEntries_entries.len()
                <= m.log.entries.len()
        }),
{
    let m = c.members[step->Send_id];
    assert(leader_ok(h, step->Send_id, m));
}

/// A committed write is never a lie: a later leader that has committed as much serves
/// a state that starts from exactly what the earlier leader had committed, changed
/// only by the writes that came after.
pub proof fn law_later_leaders_serve_committed_writes(
    start: Cluster,
    steps: Seq<Step>,
    i: int,
    j: int,
    leader: Seq<char>,
    later: Seq<char>,
    index: int,
)
    requires
        can_run(start, steps),
        0 <= i <= j <= steps.len(),
        commits(after_steps(start, steps, i), leader, index),
        leads(after_steps(start, steps, j), later),
        term_of(after_steps(start, steps, i), leader) <= term_of(
            after_steps(start, steps, j),
            later,
        ),
        index <= after_steps(start, steps, j).members[later].node.state.commit_index,
    ensures
        ({
            let committed = log_of(after_steps(start, steps, i), leader);
            let node = after_steps(start, steps, j).members[later].node;
            let log = log_of(after_steps(start, steps, j), later);
            node.db == replayed_onto(
                replayed(committed.take(index)),
                log.subrange(index, node.state.commit_index as int),
            )
        }),
{
    lemma_mirrors_run(start, steps, j, later);
    law_committed_entries_survive(start, steps, i, j, leader, later, index);
    let node = after_steps(start, steps, j).members[later].node;
    let log = log_of(after_steps(start, steps, j), later);
    let n = node.last_applied as int;
    assert(log.take(n) =~= log.take(index) + log.subrange(index, n));
    law_replay_composes(Map::empty(), log.take(index), log.subrange(index, n));
}

/// What a member regards as committed stays in its log for good, through any number
/// of messages, elections and restarts.
pub proof fn law_committed_entries_are_never_truncated(
    start: Cluster,
    steps: Seq<Step>,
    i: int,
    j: int,
    id: Seq<char>,
)
    requires
        can_run(start, steps),
        0 <= i <= j <= steps.len(),
        after_steps(start, steps, i).members.contains_key(id),
    ensures
        ({
            let node = after_steps(start, steps, i).members[id].node;
            let before = log_of(after_steps(start, steps, i), id);
            let after = log_of(after_steps(start, steps, j), id);
            let commit = node.state.commit_index as int;
            &&& commit <= before.len()
            &&& commit <= after.len()
            &&& after.take(commit) == before.take(commit)
        }),
{
    let (c, h) = (after_steps(start, steps, i), history(start, steps, i));
    let commit = c.members[id].node.state.commit_index as int;
    lemma_commits_run(start, steps, i);
    assert(backed(c, h, log_of(c, id), commit, term_of(c, id)));
    lemma_committed_stays(start, steps, i, j, id, commit, term_of(c, id));
}

proof fn lemma_committed_stays(
    start: Cluster,
    steps: Seq<Step>,
    i: int,
    j: int,
    id: Seq<char>,
    commit: int,
    upto: u64,
)
    requires
        can_run(start, steps),
        0 <= i <= j <= steps.len(),
        after_steps(start, steps, i).members.contains_key(id),
        backed(
            after_steps(start, steps, i),
            history(start, steps, i),
            log_of(after_steps(start, steps, i), id),
            commit,
            upto,
        ),
        upto <= term_of(after_steps(start, steps, i), id),
    ensures
        ({
            let before = log_of(after_steps(start, steps, i), id);
            let (c, h) = (after_steps(start, steps, j), history(start, steps, j));
            &&& c.members.contains_key(id)
            &&& commit <= log_of(c, id).len()
            &&& log_of(c, id).take(commit) == before.take(commit)
            &&& backed(c, h, log_of(c, id), commit, upto)
            &&& upto <= term_of(c, id)
        }),
    decreases j - i,
{
    if i < j {
        lemma_committed_stays(start, steps, i, j - 1, id, commit, upto);
        lemma_run(start, steps, j - 1);
        let c = after_steps(start, steps, j - 1);
        assert(enabled(c, steps[j - 1]));
        lemma_step_keeps_committed(
            c,
            history(start, steps, j - 1),
            steps[j - 1],
            id,
            commit,
            upto,
        );
    }
}

/// What any member regards as committed, every leader of the same or a later term
/// has: an answer that rests on it is never taken back.
pub proof fn law_every_commit_is_final(
    start: Cluster,
    steps: Seq<Step>,
    i: int,
    j: int,
    id: Seq<char>,
    later: Seq<char>,
)
    requires
        can_run(start, steps),
        0 <= i <= j <= steps.len(),
        after_steps(start, steps, i).members.contains_key(id),
        leads(after_steps(start, steps, j), later),
        term_of(after_steps(start, steps, i), id) <= term_of(after_steps(start, steps, j), later),
    ensures
        ({
            let node = after_steps(start, steps, i).members[id].node;
            let committed = log_of(after_steps(start, steps, i), id);
            let log = log_of(after_steps(start, steps, j), later);
            let commit = node.state.commit_index as int;
            &&& commit <= committed.len()
            &&& commit <= log.len()
            &&& log.take(commit) == committed.take(commit)
        }),
{
    let (c, h) = (after_steps(start, steps, i), history(start, steps, i));
    let (c2, h2) = (after_steps(start, steps, j), history(start, steps, j));
    let commit = c.members[id].node.state.commit_index as int;
    let (t, s) = (term_of(c, id), term_of(c2, later));
    lemma_commits_run(start, steps, i);
    lemma_run(start, steps, j);
    assert(backed(c, h, log_of(c, id), commit, t));
    lemma_committed_stays(start, steps, i, j, id, commit, t);
    assert(leader_ok(h2, later, c2.members[later]));
    lemma_leader_has_committed(c2, h2, log_of(c2, id), commit, t, s);
}

/// Members never disagree about what is committed: whatever two members regard as
/// committed, at whatever times, is the same up to where both do, so no two state
/// machines ever apply different entries at one index.
pub proof fn law_members_agree_on_what_is_committed(
    start: Cluster,
    steps: Seq<Step>,
    i: int,
    j: int,
    a: Seq<char>,
    b: Seq<char>,
    index: int,
)
    requires
        can_run(start, steps),
        0 <= i <= j <= steps.len(),
        after_steps(start, steps, i).members.contains_key(a),
        after_steps(start, steps, j).members.contains_key(b),
        0 <= index <= after_steps(start, steps, i).members[a].node.state.commit_index,
        index <= after_steps(start, steps, j).members[b].node.state.commit_index,
    ensures
        ({
            let one = log_of(after_steps(start, steps, i), a);
            let other = log_of(after_steps(start, steps, j), b);
            &&& index <= one.len()
            &&& index <= other.len()
            &&& one.take(index) == other.take(index)
        }),
{
    let (c, h) = (after_steps(start, steps, i), history(start, steps, i));
    let (c2, h2) = (after_steps(start, steps, j), history(start, steps, j));
    let (ca, cb) = (
        c.members[a].node.state.commit_index as int,
        c2.members[b].node.state.commit_index as int,
    );
    lemma_commits_run(start, steps, i);
    lemma_commits_run(start, steps, j);
    lemma_run(start, steps, j);
    assert(backed(c, h, log_of(c, a), ca, term_of(c, a)));
    assert(backed(c2, h2, log_of(c2, b), cb, term_of(c2, b)));
    lemma_committed_stays(start, steps, i, j, a, ca, term_of(c, a));
    lemma_backed_agree(
        c2,
        h2,
        log_of(c2, a),
        log_of(c2, b),
        ca,
        cb,
        term_of(c, a),
        term_of(c2, b),
        index,
    );
    assert(log_of(c2, a).take(ca).take(index) =~= log_of(c2, a).take(index));
    assert(log_of(c, a).take(ca).take(index) =~= log_of(c, a).take(index));
}

proof fn lemma_backed_agree(
    c: Cluster,
    h: History,
    a: Seq<LogEntryView>,
    b: Seq<LogEntryView>,
    ca: int,
    cb: int,
    ta: u64,
    tb: u64,
    index: int,
)
    requires
        invariant_holds(c, h),
        backed(c, h, a, ca, ta),
        backed(c, h, b, cb, tb),
        0 <= index <= ca,
        index <= cb,
    ensures
        a.take(index) == b.take(index),
{
    if index == 0 {
        assert(a.take(0) =~= b.take(0));
    } else {
        let (xa, wa, ka) = choose|x: Set<Seq<char>>, w: u64, k: int|
            {
                &&& #[trigger] majority_held(c, h, x, w, k)
                &&& w <= ta
                &&& ca <= k
                &&& holds(h, a, w, ca)
            };
        let (xb, wb, kb) = choose|x: Set<Seq<char>>, w: u64, k: int|
            {
                &&& #[trigger] majority_held(c, h, x, w, k)
                &&& w <= tb
                &&& cb <= k
                &&& holds(h, b, w, cb)
            };
        assert(backed(c, h, a, ca, wa));
        assert(backed(c, h, b, cb, wb));
        let w = if wa <= wb {
            wb
        } else {
            wa
        };
        lemma_leader_has_committed(c, h, a, ca, wa, w);
        lemma_leader_has_committed(c, h, b, cb, wb, w);
        let log = h.reigns[w].log;
        assert(a.take(ca).take(index) =~= a.take(index));
        assert(b.take(cb).take(index) =~= b.take(index));
        assert(log.take(ca).take(index) =~= log.take(index));
        assert(log.take(cb).take(index) =~= log.take(index));
    }
}

/// A member has applied exactly what it regards as committed.
pub open spec fn is_up_to_commit(c: Cluster, id: Seq<char>) -> bool {
    &&& mirrors(c.members[id].node, log_of(c, id))
    &&& c.members[id].node.last_applied == c.members[id].node.state.commit_index
}

/// Committing and then applying leaves nothing committed that is not applied.
proof fn lemma_committing_applies(node: NodeView, index: u64, log: Seq<LogEntryView>)
    requires
        mirrors(node, log),
        node.last_applied == node.state.commit_index,
    ensures
        mirrors(node.committing(index, log), log),
        node.committing(index, log).last_applied == node.committing(index, log).state.commit_index,
{
    law_committing_keeps_the_mirror(node, index, log);
}

proof fn lemma_mirror_step(c: Cluster, h: History, step: Step, id: Seq<char>)
    requires
        invariant_holds(c, h),
        commits_ok(c, h),
        enabled(c, step),
        c.members.contains_key(id),
        is_up_to_commit(c, id),
    ensures
        is_up_to_commit(after_step(c, step), id),
{
    let c2 = after_step(c, step);
    let (m, m2) = (c.members[id], c2.members[id]);
    let (log, log2) = (log_of(c, id), log_of(c2, id));
    let commit = m.node.state.commit_index as int;
    assert(backed(c, h, log, commit, term_of(c, id)));
    lemma_step_keeps_committed(c, h, step, id, commit, term_of(c, id));
    if actor(step) == id {
        match step {
            Step::Recount { .. } => {
                lemma_committing_applies(m.node, m.node.majority_index(log), log);
            },
            Step::Take { request, .. } => {
                let term = request->AppendEntries_term;
                if term >= m.node.state.current_term {
                    let node = m.node.following(term, request->AppendEntries_leader_id);
                    assert(mirrors(node, log2));
                    let upto = request->prev_log_index + request->AppendEntries_entries.len();
                    let checked = min(request->leader_commit as int, upto) as u64;
                    lemma_committing_applies(node, checked, log2);
                }
            },
            Step::Restart { commit_index, .. } => {
                let persisted = NodeView {
                    state: RaftStateView { commit_index, ..m.node.state },
                    ..m.node
                };
                if log.len() > 0 {
                    assert(log_ok(h, m));
                    lemma_rooted_terms(c, h, log, 1);
                }
                law_restart_replays_the_committed_prefix(persisted, log);
            },
            _ => {},
        }
    }
}

/// Every state machine is a replay of what its member regards as committed, and of
/// nothing else, at every moment.
pub proof fn law_state_machines_replay_what_is_committed(
    start: Cluster,
    steps: Seq<Step>,
    n: int,
    id: Seq<char>,
)
    requires
        can_run(start, steps),
        0 <= n <= steps.len(),
        after_steps(start, steps, n).members.contains_key(id),
    ensures
        ({
            let c = after_steps(start, steps, n);
            let node = c.members[id].node;
            &&& node.state.commit_index <= log_of(c, id).len()
            &&& node.db == replayed(log_of(c, id).take(node.state.commit_index as int))
        }),
{
    lemma_mirrors_run(start, steps, n, id);
}

proof fn lemma_mirrors_run(start: Cluster, steps: Seq<Step>, n: int, id: Seq<char>)
    requires
        can_run(start, steps),
        0 <= n <= steps.len(),
        after_steps(start, steps, n).members.contains_key(id),
    ensures
        is_up_to_commit(after_steps(start, steps, n), id),
    decreases n,
{
    if n > 0 {
        let c = after_steps(start, steps, n - 1);
        assert(enabled(c, steps[n - 1]));
        assert(c.members.contains_key(id));
        lemma_mirrors_run(start, steps, n - 1, id);
        lemma_run(start, steps, n - 1);
        lemma_commits_run(start, steps, n - 1);
        lemma_mirror_step(c, history(start, steps, n - 1), steps[n - 1], id);
    } else {
        assert(log_of(start, id).take(0) =~= Seq::empty());
    }
}

/// A read through a leader gives the value that the last committed write of the key
/// put there, at every moment.
pub proof fn law_reads_give_committed_writes(
    start: Cluster,
    steps: Seq<Step>,
    n: int,
    leader: Seq<char>,
    key: Seq<char>,
)
    requires
        can_run(start, steps),
        0 <= n <= steps.len(),
        leads(after_steps(start, steps, n), leader),
    ensures
        ({
            let c = after_steps(start, steps, n);
            let node = c.members[leader].node;
            let db = replayed(log_of(c, leader).take(node.state.commit_index as int));
            routed(node, CommandView::Get { key }) == RouteView::Reply(
                if db.contains_key(key) {
                    ResponseView::Value(Some(db[key]))
                } else {
                    ResponseView::Error("Key not found"@)
                },
            )
        }),
{
    let c = after_steps(start, steps, n);
    lemma_mirrors_run(start, steps, n, leader);
    law_read_gives_the_last_committed_write(c.members[leader].node, log_of(c, leader), key);
}

/// An acknowledged write survives: if a leader appends a command and the client is
/// answered that it is done, then that very entry is at the same place in the log of
/// every leader of the same or a later term from then on, whichever members died or
/// were cut off, and whoever led in between.
pub proof fn law_acknowledged_write_survives(
    start: Cluster,
    steps: Seq<Step>,
    written: int,
    answered: int,
    n: int,
    later: Seq<char>,
)
    requires
        can_run(start, steps),
        0 <= written < answered <= n <= steps.len(),
        steps[written] is Write,
        ({
            let id = steps[written]->Write_id;
            let m = after_steps(start, steps, written).members[id];
            let entry = next_entry(m, steps[written]->Write_command);
            let now = after_steps(start, steps, answered);
            &&& settled(now.members[id].node, log_of(now, id), entry.index, entry.term) == Some(
                ResponseView::Done,
            )
            &&& leads(after_steps(start, steps, n), later)
            &&& term_of(now, id) <= term_of(after_steps(start, steps, n), later)
        }),
    ensures
        ({
            let m = after_steps(start, steps, written).members[steps[written]->Write_id];
            let entry = next_entry(m, steps[written]->Write_command);
            let log = log_of(after_steps(start, steps, n), later);
            &&& 1 <= entry.index <= log.len()
            &&& log[entry.index - 1] == entry
        }),
{
    let id = steps[written]->Write_id;
    let (c, h) = (after_steps(start, steps, written), history(start, steps, written));
    let m = c.members[id];
    let entry = next_entry(m, steps[written]->Write_command);
    let (t, k) = (entry.term, entry.index as int);
    let (c2, h2) = (after_steps(start, steps, answered), history(start, steps, answered));
    lemma_run(start, steps, written);
    lemma_run(start, steps, answered);
    assert(enabled(c, steps[written]));
    lemma_members_stay(start, steps, written);
    lemma_members_stay(start, steps, answered);
    // The entry is in its leader's log from then on.
    let h1 = history(start, steps, written + 1);
    assert(h1.reigns.contains_key(t) && h1.reigns[t].log == m.log.entries.push(entry));
    lemma_history_extends(start, steps, written + 1, answered);
    lemma_take_of_prefix(h1.reigns[t].log, h2.reigns[t].log, k);
    // So what stands there in the member's log, being of that term, is that entry.
    let log = log_of(c2, id);
    assert(log_ok(h2, c2.members[id]));
    assert(rooted_at(h2, log, k));
    assert(log[k - 1] == entry) by {
        assert(log.take(k)[k - 1] == log[k - 1]);
        assert(h2.reigns[t].log.take(k)[k - 1] == h1.reigns[t].log.take(k)[k - 1]);
    }
    law_every_commit_is_final(start, steps, answered, n, id, later);
    let commit = c2.members[id].node.state.commit_index as int;
    let theirs = log_of(after_steps(start, steps, n), later);
    assert(theirs.take(commit)[k - 1] == log.take(commit)[k - 1]);
}

} // verus!
