//! What a client can rely on: who takes its writes and reads, when it is told that a
//! write is done, and where it is sent if it asked the wrong node.

use crate::client::{load_write, redirected, requested, ClientActionView};
use crate::kv::replayed;
use crate::message::{CommandView, LogEntryView, ResponseView};
use crate::node::{
    failed_write,
    routed,
    settled,
    write_answer,
    write_state,
    NodeView,
    Role,
    RouteView,
    WriteEnd,
    WriteStatus,
};
use crate::node_laws::{law_committing_keeps_the_mirror, mirrors};
use crate::replication_laws::{
    holders,
    law_entry_held_by_a_majority_is_committed,
    law_nothing_is_committed_without_a_majority,
};
use crate::text::{decimal, law_decimal_reads_back};
use vstd::prelude::*;
use vstd::utf8::encode_utf8;

verus! {

/// The leader answers no write by itself: whatever its state machine holds, a write is
/// to be appended as it is.
pub proof fn law_leader_appends_every_write(node: NodeView, key: Seq<char>, value: Seq<u8>)
    requires
        node.role == Role::Leader,
    ensures
        routed(node, CommandView::Put { key, value }) == RouteView::Write(
            CommandView::Put { key, value },
        ),
{
}

/// No node, leader or not, answers `Done` to a write before it has been appended.
pub proof fn law_no_write_is_done_on_arrival(node: NodeView, key: Seq<char>, value: Seq<u8>)
    ensures
        routed(node, CommandView::Put { key, value }) != RouteView::Reply(ResponseView::Done),
        node.role != Role::Leader ==> routed(node, CommandView::Put { key, value })
            == RouteView::Reply(ResponseView::NotLeader { leader: node.leader_id }),
{
}

/// Two nodes that differ in what they hold do the same with a write.
pub proof fn law_writes_do_not_look_at_the_data(
    a: NodeView,
    b: NodeView,
    key: Seq<char>,
    value: Seq<u8>,
)
    requires
        a.role == b.role,
        a.leader_id == b.leader_id,
    ensures
        routed(a, CommandView::Put { key, value }) == routed(b, CommandView::Put { key, value }),
{
}

/// The leader answers a read with what its state machine holds for the key, and says so
/// if there is nothing.
pub proof fn law_leader_reads_its_state_machine(node: NodeView, key: Seq<char>)
    requires
        node.role == Role::Leader,
    ensures
        forall|value: Seq<u8>|
            node.db.contains_pair(key, value) ==> #[trigger] routed(
                node,
                CommandView::Get { key },
            ) == RouteView::Reply(ResponseView::Value(Some(value))),
        !node.db.contains_key(key) ==> routed(node, CommandView::Get { key })
            == RouteView::Reply(ResponseView::Error("Key not found"@)),
{
}

/// What the members of the cluster send one another is taken up by any node, in any
/// role, with nothing lost of it.
pub proof fn law_members_are_heard_in_any_role(
    node: NodeView,
    term: u64,
    sender: Seq<char>,
    index: u64,
    index_term: u64,
    entries: Seq<LogEntryView>,
    commit: u64,
)
    ensures
        routed(
            node,
            CommandView::RequestVote {
                term,
                candidate_id: sender,
                last_log_index: index,
                last_log_term: index_term,
            },
        ) == (RouteView::Vote {
            term,
            candidate_id: sender,
            last_log_index: index,
            last_log_term: index_term,
        }),
        routed(
            node,
            CommandView::AppendEntries {
                term,
                leader_id: sender,
                prev_log_index: index,
                prev_log_term: index_term,
                entries,
                leader_commit: commit,
            },
        ) == (RouteView::Append {
            term,
            leader_id: sender,
            prev_log_index: index,
            prev_log_term: index_term,
            entries,
            leader_commit: commit,
        }),
        routed(node, CommandView::NoOp) == RouteView::Reply(ResponseView::Done),
{
}

/// An answer is given once it is due: from when the entry of that term at that index is
/// committed, and for good, the write is committed and its client is told so, whoever
/// leads by then.
pub proof fn law_due_answer_is_given(
    node: NodeView,
    log: Seq<LogEntryView>,
    committed: u64,
    later: u64,
    index: u64,
    term: u64,
)
    requires
        1 <= index <= log.len(),
        log[index - 1].term == term,
        index <= committed <= later,
    ensures
        write_state(node, log, committed, index, term) == WriteStatus::Committed,
        write_state(node, log, later, index, term) == WriteStatus::Committed,
        index <= node.state.commit_index ==> settled(node, log, index, term) == Some(
            ResponseView::Done,
        ),
{
}

/// Success is told of nothing else: not of an entry that is not committed, nor of one
/// that is not in the log, nor where an entry of another term is.
pub proof fn law_undue_answer_is_withheld(
    node: NodeView,
    log: Seq<LogEntryView>,
    committed: u64,
    index: u64,
    term: u64,
)
    requires
        index >= 1,
        index > committed || index > log.len() || log[index - 1].term != term,
    ensures
        write_state(node, log, committed, index, term) != WriteStatus::Committed,
        committed == node.state.commit_index ==> settled(node, log, index, term) != Some(
            ResponseView::Done,
        ),
        node.role == Role::Leader && node.state.current_term == term ==> write_state(
            node,
            log,
            committed,
            index,
            term,
        ) == WriteStatus::Pending,
        node.role == Role::Leader && node.state.current_term == term && committed
            == node.state.commit_index ==> settled(node, log, index, term) is None,
        node.role != Role::Leader || node.state.current_term != term ==> write_state(
            node,
            log,
            committed,
            index,
            term,
        ) == WriteStatus::LostLeadership,
        (node.role != Role::Leader || node.state.current_term != term) && committed
            == node.state.commit_index ==> settled(node, log, index, term) matches Some(
            ResponseView::Error(_),
        ),
{
}

/// Only a committed write is answered `Done`; a write that is not known to have
/// committed is answered with an error.
pub proof fn law_only_committed_writes_are_done(term: u64, index: u64)
    ensures
        write_answer(WriteEnd::Committed, term, index) == ResponseView::Done,
        write_answer(WriteEnd::LostLeadership, term, index) is Error,
        write_answer(WriteEnd::TimedOut, term, index) is Error,
{
}

/// A write that could not be appended is answered with an error that gives the reason as
/// it is.
pub proof fn law_failed_write_gives_the_reason(reason: Seq<char>)
    ensures
        failed_write(reason) matches ResponseView::Error(text) && {
            &&& text.len() == "write failed: "@.len() + reason.len()
            &&& text.skip(text.len() - reason.len()) == reason
        },
{
    let text = failed_write(reason)->Error_0;
    assert(text.skip(text.len() - reason.len()) =~= reason);
}

/// Two writes that are not known to have committed are told apart by the answer: by the
/// index, and where the leadership was lost also by the term.
pub proof fn law_unfinished_writes_are_told_apart(term: u64, a: u64, b: u64, other: u64)
    ensures
        a != b ==> write_answer(WriteEnd::TimedOut, term, a) != write_answer(
            WriteEnd::TimedOut,
            term,
            b,
        ),
        a != b ==> write_answer(WriteEnd::LostLeadership, term, a) != write_answer(
            WriteEnd::LostLeadership,
            term,
            b,
        ),
        term != other ==> write_answer(WriteEnd::LostLeadership, term, a) != write_answer(
            WriteEnd::LostLeadership,
            other,
            a,
        ),
{
    let (da, db, dt, d_other) = (
        decimal(a as nat),
        decimal(b as nat),
        decimal(term as nat),
        decimal(other as nat),
    );
    law_decimal_reads_back(a as nat);
    law_decimal_reads_back(b as nat);
    law_decimal_reads_back(term as nat);
    law_decimal_reads_back(other as nat);
    let timed = " not committed within 2s; this is unknown, not failed — it may still commit"@;
    lemma_middles_differ("index "@, da, db, timed);
    let start = "lost leadership for term "@;
    let rest = " committed; the write may or may not survive"@;
    lemma_middles_differ(start + dt + " before index "@, da, db, rest);
    assert(start + dt + " before index "@ + da + rest =~= start + dt + (" before index "@ + da
        + rest));
    assert(start + d_other + " before index "@ + da + rest =~= start + d_other + (" before index "@
        + da + rest));
    lemma_middles_differ(start, dt, d_other, " before index "@ + da + rest);
}

proof fn lemma_middles_differ(start: Seq<char>, a: Seq<char>, b: Seq<char>, end: Seq<char>)
    ensures
        a != b ==> start + a + end != start + b + end,
{
    if start + a + end == start + b + end {
        let (x, y) = (start + a + end, start + b + end);
        assert(x.len() == y.len());
        let (from, to) = (start.len() as int, (start.len() + a.len()) as int);
        assert(x.subrange(from, to) =~= a);
        assert(y.subrange(from, to) =~= b);
    }
}

/// From the request to the answer: what the leader is asked to write and appends in its
/// own term at the end of its log is answered `Done` once the leader and the peers that
/// acknowledged it are more than half of the cluster, and a read through the leader then
/// gives the value back.
pub proof fn law_acknowledged_write_is_done_and_read_back(
    node: NodeView,
    log: Seq<LogEntryView>,
    key: Seq<char>,
    value: Seq<u8>,
)
    requires
        node.role == Role::Leader,
        log.len() < u64::MAX,
        node.state.commit_index <= log.len(),
        ({
            let index = (log.len() + 1) as u64;
            let entry = LogEntryView {
                index,
                term: node.state.current_term,
                command: CommandView::Put { key, value },
            };
            &&& mirrors(node, log.push(entry))
            &&& 2 * (1 + holders(node, index as int).len()) > node.peers.len() + 1
        }),
        forall|p: Seq<char>| #[trigger]
            node.match_index.contains_key(p) ==> node.match_index[p] <= log.len() + 1,
    ensures
        ({
            let index = (log.len() + 1) as u64;
            let entry = LogEntryView {
                index,
                term: node.state.current_term,
                command: CommandView::Put { key, value },
            };
            let after = node.counting(log.push(entry));
            &&& routed(node, CommandView::Put { key, value }) == RouteView::Write(entry.command)
            &&& settled(after, log.push(entry), index, entry.term) == Some(ResponseView::Done)
            &&& routed(after, CommandView::Get { key }) == RouteView::Reply(
                ResponseView::Value(Some(value)),
            )
        }),
{
    let index = (log.len() + 1) as u64;
    let entry = LogEntryView {
        index,
        term: node.state.current_term,
        command: CommandView::Put { key, value },
    };
    let longer = log.push(entry);
    let after = node.counting(longer);
    law_entry_held_by_a_majority_is_committed(node, longer, index as int);
    law_nothing_is_committed_without_a_majority(node, longer);
    law_committing_keeps_the_mirror(node, 0, longer);
    assert(after.state.commit_index == index);
    assert(after.last_applied == index);
    assert(longer.take(index as int) =~= longer);
    assert(longer.drop_last() =~= log);
    assert(after.db == replayed(longer));
    assert(after.db == replayed(log).insert(key, value));
}

/// A client is sent on exactly if the node it asked names another one as the leader, and
/// then to that one.
pub proof fn law_redirect_goes_to_the_named_leader(addr: Seq<char>, leader: Seq<char>)
    ensures
        leader != addr ==> redirected(
            addr,
            ResponseView::NotLeader { leader: Some(leader) },
        ) == Some(leader),
        redirected(addr, ResponseView::NotLeader { leader: Some(addr) }) is None,
        redirected(addr, ResponseView::NotLeader { leader: None }) is None,
        forall|response: ResponseView|
            !(response is NotLeader) ==> #[trigger] redirected(addr, response) is None,
{
}

/// A client that asks a node which does not lead is sent to whoever that node last
/// accepted a message from.
pub proof fn law_client_finds_the_leader(
    node: NodeView,
    term: u64,
    leader: Seq<char>,
    addr: Seq<char>,
    key: Seq<char>,
    value: Seq<u8>,
)
    requires
        term >= node.state.current_term,
        node.role != Role::Leader,
        addr != leader,
    ensures
        ({
            let follower = node.hearing(term, leader);
            &&& routed(follower, CommandView::Get { key }) matches RouteView::Reply(response)
            &&& redirected(addr, response) == Some(leader)
        }),
        ({
            let follower = node.hearing(term, leader);
            &&& routed(follower, CommandView::Put { key, value }) matches RouteView::Reply(response)
            &&& redirected(addr, response) == Some(leader)
        }),
{
}

/// The command line asks for a write, for a read, or for the load test; anything else is
/// not understood.
pub proof fn law_command_line_is_understood(
    addr: Seq<char>,
    key: Seq<char>,
    value: Seq<char>,
    other: Seq<Seq<char>>,
)
    ensures
        requested(seq![]) is LoadTest,
        requested(seq![addr, "set"@, key, value]) == (ClientActionView::Send {
            addr,
            command: CommandView::Put { key, value: encode_utf8(value) },
        }),
        requested(seq![addr, "get"@, key]) == (ClientActionView::Send {
            addr,
            command: CommandView::Get { key },
        }),
        ({
            ||| other.len() == 1 || other.len() == 2 || other.len() > 4
            ||| other.len() == 3 && other[1] != "get"@
            ||| other.len() == 4 && other[1] != "set"@
        }) ==> requested(other) is Usage,
{
}

/// The writes of the load test are of different keys, and each holds its own number.
pub proof fn law_load_test_writes_differ(i: u8, j: u8)
    ensures
        load_write(i) matches CommandView::Put { value, .. } && value == seq![i, 0u8, 0u8, 0u8],
        i != j ==> load_write(i)->Put_key != load_write(j)->Put_key,
{
    if i != j {
        law_decimal_reads_back(i as nat);
        law_decimal_reads_back(j as nat);
        let (a, b) = (load_write(i)->Put_key, load_write(j)->Put_key);
        let k = "key_"@.len() as int;
        assert(a.skip(k) =~= decimal(i as nat));
        assert(b.skip(k) =~= decimal(j as nat));
    }
}

} // verus!
