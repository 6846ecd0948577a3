//! The messages that nodes and clients exchange, and the entries of the log.

use crate::state::text_view;
use vstd::prelude::*;

verus! {

/// A request, and what a log entry carries.
#[derive(Debug, PartialEq)]
pub enum Command {
    Put { key: String, value: Vec<u8> },
    Get { key: String },
    /// A leader's first entry in a new term. It carries no data; it exists so
    /// the commit rule has an entry of the current term to latch onto, which is
    /// what lets entries inherited from earlier terms commit.
    NoOp,
    /// Replication and heartbeat in one. An empty `entries` is a heartbeat.
    AppendEntries {
        term: u64,
        leader_id: String,
        prev_log_index: u64,
        prev_log_term: u64,
        entries: Vec<LogEntry>,
        leader_commit: u64,
    },
    RequestVote {
        term: u64,
        candidate_id: String,
        last_log_index: u64,
        last_log_term: u64,
    },
}

/// One entry in the replicated log. `index` is 1-based; index 0 is the "empty
/// log" sentinel that `prev_log_index` uses to mean "nothing before this".
#[derive(Debug, PartialEq)]
pub struct LogEntry {
    pub term: u64,
    pub index: u64,
    pub command: Command,
}

/// The answer to a [`Command`].
#[derive(Debug, PartialEq, Clone)]
pub enum Response {
    Done,
    Value(Option<Vec<u8>>),
    Error(String),
    VoteResponse { term: u64, vote_granted: bool },
    AppendEntriesAck {
        term: u64,
        success: bool,
        /// On success, the last index the follower now holds.
        match_index: u64,
        /// On failure, the index the leader should retry from.
        conflict_index: u64,
    },
    /// This node isn't the leader. `leader` is its dialable address if known.
    NotLeader { leader: Option<String> },
}

#[verifier::ext_equal]
pub enum ResponseView {
    Done,
    Value(Option<Seq<u8>>),
    Error(Seq<char>),
    VoteResponse { term: u64, vote_granted: bool },
    AppendEntriesAck { term: u64, success: bool, match_index: u64, conflict_index: u64 },
    NotLeader { leader: Option<Seq<char>> },
}

impl View for Response {
    type V = ResponseView;

    open spec fn view(&self) -> ResponseView {
        match *self {
            Response::Done => ResponseView::Done,
            Response::Value(Some(bytes)) => ResponseView::Value(Some(bytes@)),
            Response::Value(None) => ResponseView::Value(None),
            Response::Error(text) => ResponseView::Error(text@),
            Response::VoteResponse { term, vote_granted } => ResponseView::VoteResponse {
                term,
                vote_granted,
            },
            Response::AppendEntriesAck { term, success, match_index, conflict_index } =>
                ResponseView::AppendEntriesAck { term, success, match_index, conflict_index },
            Response::NotLeader { leader } => ResponseView::NotLeader { leader: text_view(leader) },
        }
    }
}

/// A [`Command`] as a mathematical value.
pub enum CommandView {
    Put { key: Seq<char>, value: Seq<u8> },
    Get { key: Seq<char> },
    NoOp,
    AppendEntries {
        term: u64,
        leader_id: Seq<char>,
        prev_log_index: u64,
        prev_log_term: u64,
        entries: Seq<LogEntryView>,
        leader_commit: u64,
    },
    RequestVote {
        term: u64,
        candidate_id: Seq<char>,
        last_log_index: u64,
        last_log_term: u64,
    },
}

/// A [`LogEntry`] as a mathematical value.
pub struct LogEntryView {
    pub term: u64,
    pub index: u64,
    pub command: CommandView,
}

/// The entries as mathematical values.
pub open spec fn entries_view(entries: Seq<LogEntry>) -> Seq<LogEntryView> {
    entries.map_values(|e: LogEntry| e@)
}

impl Command {
    pub open spec fn view(&self) -> CommandView
        decreases self,
    {
        match *self {
            Command::Put { key, value } => CommandView::Put { key: key@, value: value@ },
            Command::Get { key } => CommandView::Get { key: key@ },
            Command::NoOp => CommandView::NoOp,
            Command::AppendEntries {
                term,
                leader_id,
                prev_log_index,
                prev_log_term,
                entries,
                leader_commit,
            } => CommandView::AppendEntries {
                term,
                leader_id: leader_id@,
                prev_log_index,
                prev_log_term,
                entries: Seq::new(
                    entries@.len(),
                    |i: int|
                        if 0 <= i < entries@.len() {
                            entries@[i].view()
                        } else {
                            arbitrary()
                        },
                ),
                leader_commit,
            },
            Command::RequestVote { term, candidate_id, last_log_index, last_log_term } =>
                CommandView::RequestVote {
                    term,
                    candidate_id: candidate_id@,
                    last_log_index,
                    last_log_term,
                },
        }
    }

    fn duplicate(&self) -> (copy: Command)
        ensures
            copy@ == self@,
        decreases self,
    {
        match self {
            Command::Put { key, value } => Command::Put { key: key.clone(), value: value.clone() },
            Command::Get { key } => Command::Get { key: key.clone() },
            Command::NoOp => Command::NoOp,
            Command::AppendEntries {
                term,
                leader_id,
                prev_log_index,
                prev_log_term,
                entries,
                leader_commit,
            } => {
                let mut copies: Vec<LogEntry> = Vec::new();
                let mut i: usize = 0;
                while i < entries.len()
                    invariant
                        *self matches Command::AppendEntries { entries: es, .. } && es == *entries,
                        i <= entries.len(),
                        copies@.len() == i,
                        forall|j: int| 0 <= j < i ==> (#[trigger] copies@[j])@ == entries@[j]@,
                    decreases entries.len() - i,
                {
                    copies.push(entries[i].duplicate());
                    i += 1;
                }
                let copy = Command::AppendEntries {
                    term: *term,
                    leader_id: leader_id.clone(),
                    prev_log_index: *prev_log_index,
                    prev_log_term: *prev_log_term,
                    entries: copies,
                    leader_commit: *leader_commit,
                };
                assert(copy@->entries =~= self@->entries);
                copy
            },
            Command::RequestVote { term, candidate_id, last_log_index, last_log_term } =>
                Command::RequestVote {
                    term: *term,
                    candidate_id: candidate_id.clone(),
                    last_log_index: *last_log_index,
                    last_log_term: *last_log_term,
                },
        }
    }
}

impl LogEntry {
    pub open spec fn view(&self) -> LogEntryView
        decreases self,
    {
        LogEntryView { term: self.term, index: self.index, command: self.command.view() }
    }

    fn duplicate(&self) -> (copy: LogEntry)
        ensures
            copy@ == self@,
        decreases self,
    {
        LogEntry { term: self.term, index: self.index, command: self.command.duplicate() }
    }
}

impl Clone for Command {
    fn clone(&self) -> (copy: Command)
        ensures
            copy@ == self@,
    {
        self.duplicate()
    }
}

impl Clone for LogEntry {
    fn clone(&self) -> (copy: LogEntry)
        ensures
            copy@ == self@,
    {
        self.duplicate()
    }
}

} // verus!
