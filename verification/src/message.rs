use vstd::prelude::*;

use crate::state::LogEntry;

verus! {

/// The four message shapes exchanged between nodes. The transport tags each
/// delivered message with the sender's id and each emitted message with the
/// id of the node it must be delivered to.
#[derive(Debug)]
pub enum Message {
    AppendEntriesRequest(AppendEntriesRequestMessage),
    AppendEntriesResponse(AppendEntriesResponseMessage),
    VoteRequest(VoteRequestMessage),
    VoteResponse(VoteResponseMessage),
}

#[derive(Debug)]
pub struct AppendEntriesRequestMessage {
    /// the current leader's term
    pub term: u64,

    /// the current leader's id
    pub leader_id: u64,

    /// index of the log entry immediately preceding the new ones
    pub previous_log_index: u64,

    /// term of the entry at previous_log_index
    pub previous_log_term: u64,

    /// log entries to store, or empty in case of a heartbeat
    pub entries: Vec<LogEntry>,

    /// the current leader's commit index
    pub leader_commit_index: u64,
}

#[derive(Debug)]
pub struct AppendEntriesResponseMessage {
    /// current term of the responder
    pub term: u64,

    /// true if the responder contained an entry matching previous_log_index
    /// and previous_log_term
    pub success: bool,

    /// on success, the index of the last entry the responder's log now holds
    /// from the acknowledged request
    pub match_index: u64,
}

#[derive(Debug)]
pub struct VoteRequestMessage {
    /// the candidate's term
    pub term: u64,

    /// the candidate's id
    pub candidate_id: u64,

    /// the index of the candidate's last log entry
    pub last_log_index: u64,

    /// the term of the candidate's last log entry
    pub last_log_term: u64,
}

#[derive(Debug)]
pub struct VoteResponseMessage {
    /// current term of the responder
    pub term: u64,

    /// true if the candidate received the vote
    pub vote_granted: bool,
}

/// The mathematical shape of a message, with the entries as a sequence.
pub enum MessageView {
    AppendEntriesRequest {
        term: u64,
        leader_id: u64,
        previous_log_index: u64,
        previous_log_term: u64,
        entries: Seq<LogEntry>,
        leader_commit_index: u64,
    },
    AppendEntriesResponse { term: u64, success: bool, match_index: u64 },
    VoteRequest { term: u64, candidate_id: u64, last_log_index: u64, last_log_term: u64 },
    VoteResponse { term: u64, vote_granted: bool },
}

impl View for Message {
    type V = MessageView;

    open spec fn view(&self) -> MessageView {
        match self {
            Message::AppendEntriesRequest(m) => MessageView::AppendEntriesRequest {
                term: m.term,
                leader_id: m.leader_id,
                previous_log_index: m.previous_log_index,
                previous_log_term: m.previous_log_term,
                entries: m.entries@,
                leader_commit_index: m.leader_commit_index,
            },
            Message::AppendEntriesResponse(m) => MessageView::AppendEntriesResponse {
                term: m.term,
                success: m.success,
                match_index: m.match_index,
            },
            Message::VoteRequest(m) => MessageView::VoteRequest {
                term: m.term,
                candidate_id: m.candidate_id,
                last_log_index: m.last_log_index,
                last_log_term: m.last_log_term,
            },
            Message::VoteResponse(m) => MessageView::VoteResponse {
                term: m.term,
                vote_granted: m.vote_granted,
            },
        }
    }
}

/// The view of an addressed message list: each element keeps its node id and
/// takes the view of its message.
pub open spec fn msgs_view(s: Seq<(u64, Message)>) -> Seq<(u64, MessageView)> {
    s.map(|i: int, t: (u64, Message)| (t.0, t.1@))
}

} // verus!
