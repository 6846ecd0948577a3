//! What is committed in a cluster, and why it stays.

use crate::cluster::{
    accepts,
    actor,
    after_step,
    after_steps,
    can_run,
    commits,
    enabled,
    log_of,
    term_of,
    Cluster,
    Message,
    Step,
};
use crate::cluster_invariant::{
    append_ok,
    ballot_ok,
    cursor_ok,
    extends,
    history,
    holds,
    invariant_holds,
    kept,
    leader_ok,
    lemma_rooted_consistent,
    lemma_rooted_share,
    lemma_rooted_terms,
    lemma_run,
    lemma_step,
    lemma_take_of_prefix,
    log_ok,
    lost,
    recorded,
    reign_ok,
    rooted_at,
    survives,
    History,
};
use crate::message::{CommandView, LogEntryView};
use crate::node::{copies, get_or, min, Role};
use crate::node_laws::{law_leader_commits_what_a_majority_holds, law_majorities_meet};
use crate::quorum::{count_at_least, majority_of};
use crate::raft_laws::{law_agreeing_entries_stay, lemma_taken};
use crate::raft_log::{last_term, lemma_op_count, matches_at};
use vstd::prelude::*;

verus! {

/// A majority of the members held the first `k` entries of the log of that term's
/// leader, the last of which is of that term.
pub open spec fn majority_held(
    c: Cluster,
    h: History,
    holders: Set<Seq<char>>,
    t: u64,
    k: int,
) -> bool {
    &&& h.reigns.contains_key(t)
    &&& h.reigns[t].start.len() < k <= h.reigns[t].log.len()
    &&& holders.finite()
    &&& holders.subset_of(c.members.dom())
    &&& holders.len() >= majority_of((c.members.dom().len() - 1) as nat)
    &&& forall|q: Seq<char>| #[trigger] holders.contains(q) ==> held_up_to(h, q, t, k)
}

pub open spec fn held_up_to(h: History, q: Seq<char>, t: u64, k: int) -> bool {
    exists|u: int| u >= k && #[trigger] h.held.contains((q, t, u))
}

/// What a majority held, every later winner started with.
pub proof fn lemma_winners_are_complete(
    c: Cluster,
    h: History,
    holders: Set<Seq<char>>,
    t: u64,
    k: int,
    s: u64,
)
    requires
        invariant_holds(c, h),
        majority_held(c, h, holders, t, k),
        h.reigns.contains_key(s),
        t < s,
    ensures
        holds(h, h.reigns[s].start, t, k),
    decreases s,
{
    let r = h.reigns[s];
    let dom = c.members.dom();
    assert(reign_ok(c, h, s));
    assert(reign_ok(c, h, t));
    assert(dom.contains(r.leader));
    assert(dom.len() >= 1) by {
        assert(dom.remove(r.leader).len() == dom.len() - 1);
    }
    // Someone voted for the winner who had held the entries.
    law_majorities_meet(dom, holders, r.voter_logs.dom(), (dom.len() - 1) as nat);
    let v = choose|v: Seq<char>| holders.contains(v) && r.voter_logs.dom().contains(v);
    assert(held_up_to(h, v, t, k));
    let u = choose|u: int| u >= k && #[trigger] h.held.contains((v, t, u));
    assert(r.voter_logs.contains_key(v));
    let log = r.voter_logs[v];
    assert(h.ballots.contains_key((v, s)));
    assert(ballot_ok(c, h, v, s));
    assert(kept(h, log, t, u, s - 1));
    assert(survives(h, log, t, k, s - 1));
    if lost(h, t, k, s - 1) {
        let w = choose|w: u64| #[trigger]
            h.reigns.contains_key(w) && t < w <= s - 1 && !holds(h, h.reigns[w].start, t, k);
        lemma_winners_are_complete(c, h, holders, t, k, w);
    }
    assert(holds(h, log, t, k));
    // That log ends in this term or a later one, and the winner's is no less up to
    // date.
    let own = h.reigns[t].log;
    assert(log.take(k)[k - 1] == own.take(k)[k - 1]);
    assert(log[k - 1].term == t);
    lemma_rooted_consistent(c, h, log);
    assert(log[k - 1].term <= log[log.len() - 1].term);
    assert(last_term(log) >= t);
    let n = r.start.len() as int;
    let ls = last_term(r.start);
    assert(ballot_ok(c, h, r.leader, s));
    assert(ls >= last_term(log));
    assert(n > 0);
    assert(rooted_at(h, r.start, n));
    assert(r.start.take(n) =~= r.start);
    let theirs = h.reigns[ls].log;
    assert(r.start == theirs.take(n));
    assert(r.start[n - 1] == r.log[n - 1]) by {
        assert(r.log.take(n)[n - 1] == r.log[n - 1]);
    }
    if ls == t {
        assert(n >= log.len());
        assert(theirs.take(n).take(k) =~= theirs.take(k));
    } else {
        lemma_winners_are_complete(c, h, holders, t, k, ls);
        assert(reign_ok(c, h, ls));
        assert(theirs.take(n)[n - 1] == theirs[n - 1]);
        assert(n > h.reigns[ls].start.len());
        lemma_take_of_prefix(h.reigns[ls].start, theirs, k);
        assert(theirs.take(n).take(k) =~= theirs.take(k));
    }
}

proof fn lemma_count_is_len(peers: Seq<Seq<char>>, f: spec_fn(Seq<char>) -> u64, k: int)
    requires
        peers.no_duplicates(),
    ensures
        peers.to_set().filter(|p: Seq<char>| f(p) >= k).finite(),
        peers.to_set().filter(|p: Seq<char>| f(p) >= k).len() == count_at_least(
            peers.map_values(f),
            k,
        ),
    decreases peers.len(),
{
    let set = peers.to_set().filter(|p: Seq<char>| f(p) >= k);
    let numbers = peers.map_values(f);
    if peers.len() == 0 {
        assert(set =~= Set::empty());
    } else {
        let rest = peers.drop_last();
        let last = peers.last();
        let fewer = rest.to_set().filter(|p: Seq<char>| f(p) >= k);
        lemma_count_is_len(rest, f, k);
        assert(numbers.drop_last() =~= rest.map_values(f));
        assert(!rest.contains(last)) by {
            if rest.contains(last) {
                let i = choose|i: int| 0 <= i < rest.len() && rest[i] == last;
                assert(peers[i] == peers[peers.len() - 1]);
            }
        }
        assert forall|p: Seq<char>| peers.contains(p) == (rest.contains(p) || p == last) by {
            if peers.contains(p) {
                let i = choose|i: int| 0 <= i < peers.len() && peers[i] == p;
                if i < rest.len() {
                    assert(rest[i] == p);
                }
            }
            if rest.contains(p) {
                let i = choose|i: int| 0 <= i < rest.len() && rest[i] == p;
                assert(peers[i] == p);
            }
            assert(peers[peers.len() - 1] == last);
        }
        if f(last) >= k {
            assert(set =~= fewer.insert(last));
        } else {
            assert(set =~= fewer);
        }
    }
}

/// What a leader commits by counting, a majority of the members held in its term.
pub proof fn lemma_commit_is_held(c: Cluster, h: History, id: Seq<char>, k: int) -> (holders: Set<
    Seq<char>,
>)
    requires
        invariant_holds(c, h),
        commits(c, id, k),
        k == c.members[id].node.counting(log_of(c, id)).state.commit_index,
    ensures
        majority_held(c, h, holders, term_of(c, id), k),
{
    let m = c.members[id];
    let log = m.log.entries;
    let t = m.node.state.current_term;
    let f = |p: Seq<char>| get_or(m.node.match_index, p, 0);
    assert(leader_ok(h, id, m));
    assert(reign_ok(c, h, t));
    law_leader_commits_what_a_majority_holds(m.node, log);
    let copied = copies(m.node.peers, m.node.match_index, log.len() as u64);
    let counted = m.node.peers.map_values(f);
    assert(copied.drop_last() =~= counted);
    lemma_count_is_len(m.node.peers, f, k);
    let set = m.node.peers.to_set().filter(|p: Seq<char>| f(p) >= k);
    let holders = set.insert(id);
    assert(!set.contains(id));
    m.node.peers.unique_seq_to_set();
    assert(c.members.dom().remove(id).len() == c.members.dom().len() - 1);
    assert(log[k - 1].term == t);
    assert(k > h.reigns[t].start.len());
    assert forall|q: Seq<char>| #[trigger] holders.contains(q) implies held_up_to(h, q, t, k) by {
        if q == id {
            assert(h.held.contains((id, t, log.len() as int)));
        } else {
            assert(set.contains(q));
            assert(c.members.contains_key(q) && c.members.contains_key(id));
            assert(cursor_ok(h, m.node, q));
            assert(h.held.contains((q, t, get_or(m.node.match_index, q, 0) as int)));
        }
    }
    holders
}

/// A majority that held entries has held them ever after.
pub proof fn lemma_majority_stays(
    c: Cluster,
    h: History,
    c2: Cluster,
    h2: History,
    holders: Set<Seq<char>>,
    t: u64,
    k: int,
)
    requires
        majority_held(c, h, holders, t, k),
        extends(h, h2),
        c2.members.dom() == c.members.dom(),
    ensures
        majority_held(c2, h2, holders, t, k),
{
    assert forall|q: Seq<char>| #[trigger] holders.contains(q) implies held_up_to(h2, q, t, k) by {
        assert(held_up_to(h, q, t, k));
        let u = choose|u: int| u >= k && #[trigger] h.held.contains((q, t, u));
        assert(h2.held.contains((q, t, u)));
    }
}

/// The members of a cluster are always the same.
pub proof fn lemma_members_stay(start: Cluster, steps: Seq<Step>, n: int)
    requires
        can_run(start, steps),
        0 <= n <= steps.len(),
    ensures
        after_steps(start, steps, n).members.dom() == start.members.dom(),
    decreases n,
{
    if n > 0 {
        lemma_members_stay(start, steps, n - 1);
        assert(enabled(after_steps(start, steps, n - 1), steps[n - 1]));
        assert(after_steps(start, steps, n).members.dom() =~= start.members.dom());
    }
}

/// The first `commit` entries of the log were committed, in a term up to `upto`: a
/// majority held them and an entry of that term after them.
pub open spec fn backed(
    c: Cluster,
    h: History,
    log: Seq<LogEntryView>,
    commit: int,
    upto: u64,
) -> bool {
    &&& 0 <= commit <= log.len()
    &&& commit == 0 || exists|holders: Set<Seq<char>>, t: u64, k: int|
        {
            &&& #[trigger] majority_held(c, h, holders, t, k)
            &&& t <= upto
            &&& commit <= k
            &&& holds(h, log, t, commit)
        }
}

/// Every commit index, of a member or in a message, is that of committed entries.
pub open spec fn commits_ok(c: Cluster, h: History) -> bool {
    &&& forall|id: Seq<char>| #[trigger]
        c.members.contains_key(id) ==> backed(
            c,
            h,
            log_of(c, id),
            c.members[id].node.state.commit_index as int,
            term_of(c, id),
        )
    &&& forall|to: Seq<char>, command: CommandView| #[trigger]
        c.sent.contains(Message::Append { to, command }) ==> sent_commit_ok(c, h, command)
}

pub open spec fn sent_commit_ok(c: Cluster, h: History, command: CommandView) -> bool {
    command matches CommandView::AppendEntries { term, leader_commit, .. } && backed(
        c,
        h,
        h.reigns[term].log,
        leader_commit as int,
        term,
    )
}

/// What is committed in a history is committed in every later one.
proof fn lemma_backed_stays(
    c: Cluster,
    h: History,
    c2: Cluster,
    h2: History,
    log: Seq<LogEntryView>,
    log2: Seq<LogEntryView>,
    commit: int,
    commit2: int,
    upto: u64,
    upto2: u64,
)
    requires
        backed(c, h, log, commit, upto),
        extends(h, h2),
        c2.members.dom() == c.members.dom(),
        upto <= upto2,
        0 <= commit2 <= commit,
        commit2 <= log2.len(),
        log2.take(commit2) == log.take(commit2),
    ensures
        backed(c2, h2, log2, commit2, upto2),
{
    if commit2 > 0 {
        let (holders, t, k) = choose|holders: Set<Seq<char>>, t: u64, k: int|
            {
                &&& #[trigger] majority_held(c, h, holders, t, k)
                &&& t <= upto
                &&& commit <= k
                &&& holds(h, log, t, commit)
            };
        lemma_majority_stays(c, h, c2, h2, holders, t, k);
        lemma_take_of_prefix(h.reigns[t].log, h2.reigns[t].log, commit2);
        assert(log.take(commit).take(commit2) =~= log.take(commit2));
        assert(h.reigns[t].log.take(commit).take(commit2) =~= h.reigns[t].log.take(commit2));
        assert(majority_held(c2, h2, holders, t, k));
        assert(holds(h2, log2, t, commit2));
    }
}

/// A leader of the same or a later term has what is committed.
pub proof fn lemma_leader_has_committed(
    c: Cluster,
    h: History,
    log: Seq<LogEntryView>,
    commit: int,
    upto: u64,
    s: u64,
)
    requires
        invariant_holds(c, h),
        backed(c, h, log, commit, upto),
        h.reigns.contains_key(s),
        upto <= s,
    ensures
        holds(h, log, s, commit),
{
    if commit > 0 {
        let (holders, t, k) = choose|holders: Set<Seq<char>>, t: u64, k: int|
            {
                &&& #[trigger] majority_held(c, h, holders, t, k)
                &&& t <= upto
                &&& commit <= k
                &&& holds(h, log, t, commit)
            };
        if t < s {
            let r = h.reigns[s];
            assert(reign_ok(c, h, s));
            lemma_winners_are_complete(c, h, holders, t, k, s);
            lemma_take_of_prefix(r.start, r.log, k);
            assert(r.log.take(k).take(commit) =~= r.log.take(commit));
            assert(h.reigns[t].log.take(k).take(commit) =~= h.reigns[t].log.take(commit));
        }
    } else {
        assert(log.take(0) =~= h.reigns[s].log.take(0));
    }
}

/// Taking entries leaves what is committed where it is.
proof fn lemma_take_keeps_committed(
    c: Cluster,
    h: History,
    step: Step,
    commit: int,
    upto: u64,
)
    requires
        invariant_holds(c, h),
        enabled(c, step),
        step is Take,
        backed(c, h, log_of(c, step->Take_id), commit, upto),
        upto <= term_of(c, step->Take_id),
    ensures
        ({
            let log = log_of(c, step->Take_id);
            let after = log_of(after_step(c, step), step->Take_id);
            commit <= after.len() && after.take(commit) == log.take(commit)
        }),
{
    let id = step->Take_id;
    let m = c.members[id];
    let request = step->Take_request;
    let term = request->AppendEntries_term;
    let entries = request->AppendEntries_entries;
    let prev = request->prev_log_index as int;
    let upto_index = prev + entries.len();
    let leader = h.reigns[term].log;
    assert(append_ok(h, id, request));
    assert(reign_ok(c, h, term));
    assert(log_ok(h, m));
    if term >= m.node.state.current_term && matches_at(
        m.log.entries,
        prev,
        request->AppendEntries_prev_log_term,
    ) {
        if prev > 0 {
            lemma_rooted_terms(c, h, m.log.entries, prev);
        }
        lemma_leader_has_committed(c, h, m.log.entries, commit, upto, term);
        lemma_op_count(m.log, entries, step->payloads);
        law_agreeing_entries_stay(
            m.log,
            leader,
            commit,
            prev,
            upto_index,
            step->payloads,
            step->performed,
        );
    }
}

/// What is committed stays in a member's log, whatever the step is.
pub proof fn lemma_step_keeps_committed(
    c: Cluster,
    h: History,
    step: Step,
    id: Seq<char>,
    commit: int,
    upto: u64,
)
    requires
        invariant_holds(c, h),
        enabled(c, step),
        c.members.contains_key(id),
        backed(c, h, log_of(c, id), commit, upto),
        upto <= term_of(c, id),
    ensures
        ({
            let (log, after) = (log_of(c, id), log_of(after_step(c, step), id));
            &&& commit <= after.len()
            &&& after.take(commit) == log.take(commit)
            &&& term_of(c, id) <= term_of(after_step(c, step), id)
            &&& backed(after_step(c, step), recorded(h, c, step), after, commit, upto)
        }),
{
    let (c2, h2) = (after_step(c, step), recorded(h, c, step));
    let (log, after) = (log_of(c, id), log_of(c2, id));
    lemma_step(c, h, step);
    assert(c2.members.dom() =~= c.members.dom());
    if actor(step) == id {
        if step is Take {
            lemma_take_keeps_committed(c, h, step, commit, upto);
        } else if step is Write {
            assert(after.take(commit) =~= log.take(commit));
        }
    }
    lemma_backed_stays(c, h, c2, h2, log, after, commit, commit, upto, upto);
}

/// Only counting and taking entries moves a commit index forward.
proof fn lemma_who_commits(c: Cluster, step: Step, id: Seq<char>)
    requires
        enabled(c, step),
        c.members.contains_key(id),
        after_step(c, step).members[id].node.state.commit_index
            > c.members[id].node.state.commit_index,
    ensures
        actor(step) == id,
        step is Recount || step is Take,
        step is Recount ==> after_step(c, step).members[id].node == c.members[id].node.counting(
            log_of(c, id),
        ) && c.members[id].node.role == Role::Leader && log_of(after_step(c, step), id) == log_of(
            c,
            id,
        ),
{
}

proof fn lemma_member_commit(c: Cluster, h: History, step: Step, id: Seq<char>)
    requires
        invariant_holds(c, h),
        commits_ok(c, h),
        enabled(c, step),
        c.members.contains_key(id),
    ensures
        ({
            let c2 = after_step(c, step);
            backed(
                c2,
                recorded(h, c, step),
                log_of(c2, id),
                c2.members[id].node.state.commit_index as int,
                term_of(c2, id),
            )
        }),
{
    let (c2, h2) = (after_step(c, step), recorded(h, c, step));
    let (m, m2) = (c.members[id], c2.members[id]);
    let (log, log2) = (log_of(c, id), log_of(c2, id));
    let (commit, commit2) = (
        m.node.state.commit_index as int,
        m2.node.state.commit_index as int,
    );
    let (t, t2) = (term_of(c, id), term_of(c2, id));
    lemma_step(c, h, step);
    assert(c2.members.dom() =~= c.members.dom());
    lemma_step_keeps_committed(c, h, step, id, commit, t);
    if commit2 > commit {
        lemma_who_commits(c, step, id);
    }
    if commit2 <= commit {
        assert(log2.take(commit).take(commit2) =~= log2.take(commit2));
        assert(log.take(commit).take(commit2) =~= log.take(commit2));
        lemma_backed_stays(c, h, c2, h2, log, log2, commit, commit2, t, t2);
    } else if step is Recount {
        lemma_commits_by_counting(c, h, id);
        lemma_backed_stays(c, h, c2, h2, log, log2, commit2, commit2, t, t2);
    } else {
        lemma_commits_by_message(c, h, step);
        let leader = h.reigns[step->Take_request->AppendEntries_term].log;
        lemma_backed_stays(c, h, c2, h2, leader, log2, commit2, commit2, t2, t2);
    }
}

/// What a leader commits by counting is committed.
proof fn lemma_commits_by_counting(c: Cluster, h: History, id: Seq<char>)
    requires
        invariant_holds(c, h),
        c.members.contains_key(id),
        c.members[id].node.role == Role::Leader,
        c.members[id].node.counting(log_of(c, id)).state.commit_index
            > c.members[id].node.state.commit_index,
    ensures
        backed(
            c,
            h,
            log_of(c, id),
            c.members[id].node.counting(log_of(c, id)).state.commit_index as int,
            term_of(c, id),
        ),
{
    let m = c.members[id];
    let k = m.node.counting(log_of(c, id)).state.commit_index as int;
    let holders = lemma_commit_is_held(c, h, id, k);
    assert(leader_ok(h, id, m));
    assert(majority_held(c, h, holders, term_of(c, id), k));
    assert(holds(h, log_of(c, id), term_of(c, id), k));
}

/// A member that took a whole message has all that was sent.
pub proof fn lemma_take_agrees(c: Cluster, h: History, step: Step)
    requires
        invariant_holds(c, h),
        enabled(c, step),
        step is Take,
        accepts(c.members[step->Take_id], step->Take_request, step->payloads, step->performed),
    ensures
        ({
            let request = step->Take_request;
            let upto = request->prev_log_index + request->AppendEntries_entries.len();
            let log = h.reigns[request->AppendEntries_term].log;
            let taken = log_of(after_step(c, step), step->Take_id);
            &&& !(request->AppendEntries_prev_log_term == 0 && request->prev_log_index > 0)
            &&& upto <= log.len()
            &&& upto <= taken.len()
            &&& taken.take(upto) == log.take(upto)
        }),
{
    let m = c.members[step->Take_id];
    let request = step->Take_request;
    let t = request->AppendEntries_term;
    let entries = request->AppendEntries_entries;
    let prev = request->prev_log_index as int;
    let upto = prev + entries.len();
    let log = h.reigns[t].log;
    assert(append_ok(h, step->Take_id, request));
    assert(log_ok(h, m));
    assert(reign_ok(c, h, t));
    if prev > 0 {
        lemma_rooted_terms(c, h, m.log.entries, prev);
    }
    assert(entries == log.subrange(prev, upto));
    lemma_rooted_share(h, m.log.entries, log);
    let taken = lemma_taken(m.log, log, prev, upto, step->payloads, step->performed);
}

/// What a follower commits by a message is committed.
proof fn lemma_commits_by_message(c: Cluster, h: History, step: Step)
    requires
        invariant_holds(c, h),
        commits_ok(c, h),
        enabled(c, step),
        step is Take,
        after_step(c, step).members[step->Take_id].node.state.commit_index
            > c.members[step->Take_id].node.state.commit_index,
    ensures
        ({
            let term = step->Take_request->AppendEntries_term;
            let m2 = after_step(c, step).members[step->Take_id];
            let commit2 = m2.node.state.commit_index as int;
            &&& m2.node.state.current_term == term
            &&& commit2 <= m2.log.entries.len()
            &&& m2.log.entries.take(commit2) == h.reigns[term].log.take(commit2)
            &&& backed(c, h, h.reigns[term].log, commit2, term)
        }),
{
    let id = step->Take_id;
    let request = step->Take_request;
    let term = request->AppendEntries_term;
    let m2 = after_step(c, step).members[id];
    let commit2 = m2.node.state.commit_index as int;
    let sent = request->leader_commit as int;
    let log = h.reigns[term].log;
    assert(append_ok(h, id, request));
    assert(sent_commit_ok(c, h, request));
    lemma_take_agrees(c, h, step);
    let upto = request->prev_log_index + request->AppendEntries_entries.len();
    assert(commit2 == min(sent, upto));
    assert(m2.log.entries.take(upto).take(commit2) =~= m2.log.entries.take(commit2));
    assert(log.take(upto).take(commit2) =~= log.take(commit2));
    crate::cluster_invariant::lemma_extends_itself(h);
    lemma_backed_stays(c, h, c, h, log, log, sent, commit2, term, term);
}

proof fn lemma_sent_commit(c: Cluster, h: History, step: Step, to: Seq<char>, command: CommandView)
    requires
        invariant_holds(c, h),
        commits_ok(c, h),
        enabled(c, step),
        after_step(c, step).sent.contains(Message::Append { to, command }),
    ensures
        sent_commit_ok(after_step(c, step), recorded(h, c, step), command),
{
    let (c2, h2) = (after_step(c, step), recorded(h, c, step));
    lemma_step(c, h, step);
    assert(c2.members.dom() =~= c.members.dom());
    let term = command->AppendEntries_term;
    let commit = command->leader_commit as int;
    if c.sent.contains(Message::Append { to, command }) {
        assert(sent_commit_ok(c, h, command));
        assert(append_ok(h, to, command));
    } else {
        let id = actor(step);
        assert(step is Send);
        assert(leader_ok(h, id, c.members[id]));
        assert(backed(c, h, h.reigns[term].log, commit, term));
    }
    let (log, log2) = (h.reigns[term].log, h2.reigns[term].log);
    assert(h.reigns.contains_key(term));
    lemma_take_of_prefix(log, log2, commit);
    lemma_backed_stays(c, h, c2, h2, log, log2, commit, commit, term, term);
}

/// In every run, every commit index is that of committed entries.
pub proof fn lemma_commits_run(start: Cluster, steps: Seq<Step>, n: int)
    requires
        can_run(start, steps),
        0 <= n <= steps.len(),
    ensures
        commits_ok(after_steps(start, steps, n), history(start, steps, n)),
    decreases n,
{
    if n > 0 {
        let (c, h) = (after_steps(start, steps, n - 1), history(start, steps, n - 1));
        let step = steps[n - 1];
        let (c2, h2) = (after_step(c, step), recorded(h, c, step));
        lemma_commits_run(start, steps, n - 1);
        lemma_run(start, steps, n - 1);
        assert(enabled(c, step));
        assert forall|id: Seq<char>| #[trigger] c2.members.contains_key(id) implies backed(
            c2,
            h2,
            log_of(c2, id),
            c2.members[id].node.state.commit_index as int,
            term_of(c2, id),
        ) by {
            assert(c.members.contains_key(id));
            lemma_member_commit(c, h, step, id);
        }
        assert forall|to: Seq<char>, command: CommandView| #[trigger]
            c2.sent.contains(Message::Append { to, command }) implies sent_commit_ok(
            c2,
            h2,
            command,
        ) by {
            lemma_sent_commit(c, h, step, to, command);
        }
    }
}

} // verus!
