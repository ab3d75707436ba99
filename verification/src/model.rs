use vstd::prelude::*;

use crate::message::MessageView;
use crate::random::{draw_of, next_seed_of};
use crate::state::{LogEntry, Role};

verus! {

/// Ticks between two AppendEntries broadcasts of an established leader. Kept
/// below every election timeout so that followers under a live leader never
/// time out.
pub const HEARTBEAT_INTERVAL: u64 = 1;

/// The mathematical state of one node: configuration, persistent state,
/// volatile state, role and timer, with the log and the per-peer progress as
/// sequences.
#[verifier::ext_equal]
pub struct NodeView {
    pub id: u64,
    pub peers: Seq<u64>,
    pub min_election_timeout: u64,
    pub max_election_timeout: u64,
    pub current_term: u64,
    pub voted_for: Option<u64>,
    pub log: Seq<LogEntry>,
    pub commit_index: u64,
    pub last_applied: u64,
    pub role: Role,
    pub votes: Seq<u64>,
    pub next_index: Seq<u64>,
    pub match_index: Seq<u64>,
    pub timeout: u64,
    pub seed: u64,
}

/// Well-formedness of a node's state: the sentinel entry sits at index 0, the
/// applied prefix never passes the committed one, the timeout bounds are
/// ordered, recorded votes are distinct peers, and a leader's replication
/// progress covers exactly its peers with indices inside the log.
pub open spec fn wf_node(s: NodeView) -> bool {
    &&& s.log.len() >= 1
    &&& s.log[0].term == 0
    &&& s.last_applied <= s.commit_index
    &&& s.min_election_timeout <= s.max_election_timeout
    &&& s.votes.no_duplicates()
    &&& (forall|i: int| 0 <= i < s.votes.len() ==> s.peers.contains(#[trigger] s.votes[i]))
    &&& (s.role == Role::Leader ==> {
        &&& s.next_index.len() == s.peers.len()
        &&& s.match_index.len() == s.peers.len()
        &&& (forall|i: int|
            0 <= i < s.peers.len() ==> 1 <= #[trigger] s.next_index[i] <= s.log.len())
        &&& (forall|i: int|
            0 <= i < s.peers.len() ==> #[trigger] s.match_index[i] < s.log.len())
    })
}

/// A strict majority of `total` nodes.
pub open spec fn is_majority(count: int, total: int) -> bool {
    2 * count > total
}

/// The node after drawing a fresh election timeout from its generator.
pub open spec fn with_reset_timeout(s: NodeView) -> NodeView {
    NodeView {
        timeout: draw_of(s.seed, s.min_election_timeout, s.max_election_timeout),
        seed: next_seed_of(s.seed),
        ..s
    }
}

/// The node after adopting the strictly greater term `term`: it reverts to
/// Follower, clears its vote and its vote tally, and defers its own timeout.
pub open spec fn spec_step_down(s: NodeView, term: u64) -> NodeView {
    with_reset_timeout(
        NodeView {
            current_term: term,
            voted_for: Option::None,
            role: Role::Follower,
            votes: Seq::empty(),
            ..s
        },
    )
}

/// Whether a candidate whose last log entry has term `last_term` and index
/// `last_index` is at least as up-to-date as this node's own log.
pub open spec fn candidate_up_to_date(s: NodeView, last_term: u64, last_index: u64) -> bool {
    ||| last_term > s.log.last().term
    ||| (last_term == s.log.last().term && last_index >= s.log.len() - 1)
}

/// The state and replies after receiving a VoteRequest from `from`.
pub open spec fn spec_vote_request(
    s: NodeView,
    from: u64,
    term: u64,
    candidate_id: u64,
    last_log_index: u64,
    last_log_term: u64,
) -> (NodeView, Seq<(u64, MessageView)>) {
    let s1 = if term > s.current_term {
        NodeView {
            current_term: term,
            voted_for: Option::None,
            role: Role::Follower,
            votes: Seq::empty(),
            ..s
        }
    } else {
        s
    };
    let grant = term >= s.current_term && (s1.voted_for is None || s1.voted_for == Some(
        candidate_id,
    )) && candidate_up_to_date(s1, last_log_term, last_log_index);
    let s2 = if grant {
        NodeView { voted_for: Some(candidate_id), ..s1 }
    } else {
        s1
    };
    let s3 = if term > s.current_term || grant {
        with_reset_timeout(s2)
    } else {
        s2
    };
    (
        s3,
        seq![
            (from, MessageView::VoteResponse { term: s3.current_term, vote_granted: grant }),
        ],
    )
}

/// The AppendEntries request a leader `s` sends to its peer at position `p`:
/// everything in its log from that peer's next index onward.
pub open spec fn append_request_to(s: NodeView, p: int) -> (u64, MessageView) {
    let next = s.next_index[p] as int;
    (
        s.peers[p],
        MessageView::AppendEntriesRequest {
            term: s.current_term,
            leader_id: s.id,
            previous_log_index: (next - 1) as u64,
            previous_log_term: s.log[next - 1].term,
            entries: s.log.skip(next),
            leader_commit_index: s.commit_index,
        },
    )
}

/// The state and broadcast after an election win: fresh leader volatile state
/// with every peer's next index one past the leader's log, and an immediate
/// (empty) AppendEntries to every peer to assert leadership.
pub open spec fn spec_become_leader(s: NodeView) -> (NodeView, Seq<(u64, MessageView)>) {
    let s1 = NodeView {
        role: Role::Leader,
        votes: Seq::empty(),
        next_index: Seq::new(s.peers.len(), |i: int| s.log.len() as u64),
        match_index: Seq::new(s.peers.len(), |i: int| 0u64),
        timeout: HEARTBEAT_INTERVAL,
        ..s
    };
    (s1, Seq::new(s.peers.len(), |i: int| append_request_to(s1, i)))
}

/// The state and replies after receiving a VoteResponse from `from`.
pub open spec fn spec_vote_response(s: NodeView, from: u64, term: u64, vote_granted: bool) -> (
    NodeView,
    Seq<(u64, MessageView)>,
) {
    if term > s.current_term {
        (spec_step_down(s, term), Seq::empty())
    } else if s.role != Role::Candidate || term < s.current_term || !vote_granted {
        (s, Seq::empty())
    } else if s.peers.contains(from) && !s.votes.contains(from) {
        let s1 = NodeView { votes: s.votes.push(from), ..s };
        if is_majority(s1.votes.len() + 1int, s.peers.len() + 1int) {
            spec_become_leader(s1)
        } else {
            (s1, Seq::empty())
        }
    } else {
        (s, Seq::empty())
    }
}

/// The follower's log after an accepted AppendEntries whose first new entry
/// would sit at `idx`: entries that already match (same index and term) are
/// kept, the first conflicting entry and everything after it is dropped, and
/// the remaining new entries are appended.
pub open spec fn merge_log(log: Seq<LogEntry>, idx: int, entries: Seq<LogEntry>) -> Seq<LogEntry>
    decreases entries.len(),
{
    if entries.len() == 0 {
        log
    } else if idx < log.len() && log[idx].term == entries[0].term {
        merge_log(log, idx + 1, entries.skip(1))
    } else {
        log.take(idx) + entries
    }
}

/// The state and reply after receiving an AppendEntriesRequest from `from`.
pub open spec fn spec_append_request(
    s: NodeView,
    from: u64,
    term: u64,
    leader_id: u64,
    previous_log_index: u64,
    previous_log_term: u64,
    entries: Seq<LogEntry>,
    leader_commit_index: u64,
) -> (NodeView, Seq<(u64, MessageView)>) {
    if term < s.current_term {
        (
            s,
            seq![
                (
                    from,
                    MessageView::AppendEntriesResponse {
                        term: s.current_term,
                        success: false,
                        match_index: 0,
                    },
                ),
            ],
        )
    } else {
        let s1 = with_reset_timeout(
            NodeView {
                current_term: term,
                voted_for: if term > s.current_term {
                    Option::None
                } else {
                    s.voted_for
                },
                role: Role::Follower,
                votes: Seq::empty(),
                ..s
            },
        );
        let log_ok = previous_log_index == 0 || (previous_log_index < s.log.len()
            && s.log[previous_log_index as int].term == previous_log_term);
        if !log_ok {
            (
                s1,
                seq![
                    (
                        from,
                        MessageView::AppendEntriesResponse {
                            term: s1.current_term,
                            success: false,
                            match_index: 0,
                        },
                    ),
                ],
            )
        } else {
            let new_log = merge_log(s.log, previous_log_index + 1, entries);
            let last_new = previous_log_index + entries.len();
            let capped = if leader_commit_index <= last_new {
                leader_commit_index as int
            } else {
                last_new
            };
            let new_commit = if capped > s.commit_index {
                capped
            } else {
                s.commit_index as int
            };
            let s2 = NodeView { log: new_log, commit_index: new_commit as u64, ..s1 };
            (
                s2,
                seq![
                    (
                        from,
                        MessageView::AppendEntriesResponse {
                            term: s2.current_term,
                            success: true,
                            match_index: last_new as u64,
                        },
                    ),
                ],
            )
        }
    }
}

/// How many peers are known to hold the entry at index `n`.
pub open spec fn count_ge(m: Seq<u64>, n: u64) -> int
    decreases m.len(),
{
    if m.len() == 0 {
        0
    } else {
        count_ge(m.drop_last(), n) + if m.last() >= n {
            1int
        } else {
            0int
        }
    }
}

/// Whether the leader `s` may commit index `n`: a strict majority of the
/// cluster (the leader itself counted) holds the entry, and the entry was
/// created in the leader's own term — entries from prior terms are never
/// committed by counting replicas alone.
pub open spec fn committable(s: NodeView, n: int) -> bool {
    &&& is_majority(count_ge(s.match_index, n as u64) + 1, s.peers.len() as int + 1)
    &&& s.log[n].term == s.current_term
}

/// The highest index at most `n` that the leader may commit, or its current
/// commit index if no higher one qualifies.
pub open spec fn highest_committable(s: NodeView, n: int) -> int
    decreases n,
{
    if n <= s.commit_index {
        s.commit_index as int
    } else if committable(s, n) {
        n
    } else {
        highest_committable(s, n - 1)
    }
}

/// The leader's commit index after recomputing it over the whole log.
pub open spec fn new_commit_index(s: NodeView) -> u64 {
    let h = highest_committable(s, s.log.len() - 1);
    if h <= u64::MAX {
        h as u64
    } else {
        s.commit_index
    }
}

/// The leader `s` after recomputing its commit index.
pub open spec fn spec_advance_commit(s: NodeView) -> NodeView {
    NodeView { commit_index: new_commit_index(s), ..s }
}

/// The state and replies after receiving an AppendEntriesResponse from `from`.
pub open spec fn spec_append_response(
    s: NodeView,
    from: u64,
    term: u64,
    success: bool,
    acked_match_index: u64,
) -> (NodeView, Seq<(u64, MessageView)>) {
    if term > s.current_term {
        (spec_step_down(s, term), Seq::empty())
    } else if s.role != Role::Leader || term < s.current_term {
        (s, Seq::empty())
    } else {
        match s.peers.index_of_first(from) {
            Option::None => (s, Seq::empty()),
            Option::Some(p) => {
                if !success {
                    let lowered = if s.next_index[p] > 1 {
                        (s.next_index[p] - 1) as u64
                    } else {
                        1u64
                    };
                    let s1 = NodeView { next_index: s.next_index.update(p, lowered), ..s };
                    (s1, seq![append_request_to(s1, p)])
                } else {
                    let last = (s.log.len() - 1) as u64;
                    let capped = if acked_match_index <= last {
                        acked_match_index
                    } else {
                        last
                    };
                    let raised = if capped > s.match_index[p] {
                        capped
                    } else {
                        s.match_index[p]
                    };
                    let s1 = NodeView {
                        match_index: s.match_index.update(p, raised),
                        next_index: s.next_index.update(p, (raised + 1) as u64),
                        ..s
                    };
                    (spec_advance_commit(s1), Seq::empty())
                }
            },
        }
    }
}

/// The state and broadcast after starting an election: the node becomes a
/// candidate for the next term, votes for itself, redraws its timeout and asks
/// every peer for its vote. With no peers it is its own majority and becomes
/// leader at once. A node whose term counter is exhausted stays as it is.
pub open spec fn spec_start_election(s: NodeView) -> (NodeView, Seq<(u64, MessageView)>) {
    if s.current_term == u64::MAX {
        (s, Seq::empty())
    } else if s.peers.len() == 0 {
        (
            NodeView {
                role: Role::Leader,
                current_term: (s.current_term + 1) as u64,
                voted_for: Some(s.id),
                votes: Seq::empty(),
                next_index: Seq::empty(),
                match_index: Seq::empty(),
                timeout: HEARTBEAT_INTERVAL,
                ..s
            },
            Seq::empty(),
        )
    } else {
        let s1 = with_reset_timeout(
            NodeView {
                role: Role::Candidate,
                current_term: (s.current_term + 1) as u64,
                voted_for: Some(s.id),
                votes: Seq::empty(),
                ..s
            },
        );
        (
            s1,
            Seq::new(
                s.peers.len(),
                |i: int|
                    (
                        s.peers[i],
                        MessageView::VoteRequest {
                            term: s1.current_term,
                            candidate_id: s.id,
                            last_log_index: (s.log.len() - 1) as u64,
                            last_log_term: s.log.last().term,
                        },
                    ),
            ),
        )
    }
}

/// The state and sends after one unit of time elapses: the timeout counter
/// goes down by one; at zero a follower or candidate starts an election and a
/// leader broadcasts AppendEntries and rearms its heartbeat.
pub open spec fn spec_advance_time(s: NodeView) -> (NodeView, Seq<(u64, MessageView)>) {
    let t = if s.timeout > 0 {
        (s.timeout - 1) as u64
    } else {
        0u64
    };
    let s1 = NodeView { timeout: t, ..s };
    if t > 0 {
        (s1, Seq::empty())
    } else if s1.role == Role::Leader {
        let s2 = NodeView { timeout: HEARTBEAT_INTERVAL, ..s1 };
        (s2, Seq::new(s.peers.len(), |i: int| append_request_to(s2, i)))
    } else {
        spec_start_election(s1)
    }
}

/// The state and replies after processing one inbound message from `from`.
pub open spec fn spec_handle(s: NodeView, from: u64, m: MessageView) -> (
    NodeView,
    Seq<(u64, MessageView)>,
) {
    match m {
        MessageView::AppendEntriesRequest {
            term,
            leader_id,
            previous_log_index,
            previous_log_term,
            entries,
            leader_commit_index,
        } => spec_append_request(
            s,
            from,
            term,
            leader_id,
            previous_log_index,
            previous_log_term,
            entries,
            leader_commit_index,
        ),
        MessageView::AppendEntriesResponse { term, success, match_index } => spec_append_response(
            s,
            from,
            term,
            success,
            match_index,
        ),
        MessageView::VoteRequest { term, candidate_id, last_log_index, last_log_term } => spec_vote_request(
            s,
            from,
            term,
            candidate_id,
            last_log_index,
            last_log_term,
        ),
        MessageView::VoteResponse { term, vote_granted } => spec_vote_response(
            s,
            from,
            term,
            vote_granted,
        ),
    }
}

/// The state and replies after processing a whole inbound batch in order.
pub open spec fn spec_run(s: NodeView, inbound: Seq<(u64, MessageView)>) -> (
    NodeView,
    Seq<(u64, MessageView)>,
)
    decreases inbound.len(),
{
    if inbound.len() == 0 {
        (s, Seq::empty())
    } else {
        let first = spec_handle(s, inbound[0].0, inbound[0].1);
        let rest = spec_run(first.0, inbound.skip(1));
        (rest.0, first.1 + rest.1)
    }
}

/// One step of the node: advance time by one unit, then process the inbound
/// messages in order; the second component is everything sent this round.
pub open spec fn spec_tick(s: NodeView, inbound: Seq<(u64, MessageView)>) -> (
    NodeView,
    Seq<(u64, MessageView)>,
) {
    let timed = spec_advance_time(s);
    let ran = spec_run(timed.0, inbound);
    (ran.0, timed.1 + ran.1)
}

/// The node a leader becomes after accepting the command `command` from a
/// client: the entry is created in the leader's own term at the end of its log.
pub open spec fn spec_propose(s: NodeView, command: u64) -> NodeView {
    if s.role == Role::Leader {
        NodeView { log: s.log.push(LogEntry { term: s.current_term, command }), ..s }
    } else {
        s
    }
}

/// A fresh node: follower at term 0 with only the sentinel log entry, its
/// generator seeded with its own id, and a first randomized timeout drawn.
pub open spec fn init_node(id: u64, peers: Seq<u64>, min_timeout: u64, max_timeout: u64) -> NodeView {
    NodeView {
        id,
        peers,
        min_election_timeout: min_timeout,
        max_election_timeout: max_timeout,
        current_term: 0,
        voted_for: Option::None,
        log: crate::state::initial_log(),
        commit_index: 0,
        last_applied: 0,
        role: Role::Follower,
        votes: Seq::empty(),
        next_index: Seq::empty(),
        match_index: Seq::empty(),
        timeout: draw_of(id, min_timeout, max_timeout),
        seed: next_seed_of(id),
    }
}

/// What a merge always does to the log: it never touches anything below the
/// merge point, it ends at least long enough to hold every new entry, and in
/// the merged window the terms are exactly the new entries' terms.
pub proof fn lemma_merge_log_facts(log: Seq<LogEntry>, idx: int, entries: Seq<LogEntry>)
    requires
        0 <= idx <= log.len(),
    ensures
        merge_log(log, idx, entries).len() >= idx + entries.len(),
        merge_log(log, idx, entries).len() >= 1 || log.len() == 0,
        merge_log(log, idx, entries).take(idx) == log.take(idx),
        forall|k: int|
            0 <= k < entries.len() ==> merge_log(log, idx, entries)[idx + k].term
                == (#[trigger] entries[k]).term,
    decreases entries.len(),
{
    let merged = merge_log(log, idx, entries);
    if entries.len() == 0 {
        assert(merged.take(idx) == log.take(idx));
    } else if idx < log.len() && log[idx].term == entries[0].term {
        let entries2 = entries.skip(1);
        lemma_merge_log_facts(log, idx + 1, entries2);
        assert(merged == merge_log(log, idx + 1, entries2));
        assert(merged.take(idx) =~= merge_log(log, idx + 1, entries2).take(idx + 1).take(idx));
        assert(log.take(idx) =~= log.take(idx + 1).take(idx));
        assert forall|k: int| 0 <= k < entries.len() implies merged[idx + k].term
            == (#[trigger] entries[k]).term by {
            if k == 0 {
                assert(merged.take(idx + 1) == log.take(idx + 1));
                assert(merged.take(idx + 1)[idx] == merged[idx]);
                assert(log.take(idx + 1)[idx] == log[idx]);
            } else {
                assert(entries2[k - 1] == entries[k]);
                assert(merged[(idx + 1) + (k - 1)].term == entries2[k - 1].term);
            }
        }
    } else {
        assert(merged == log.take(idx) + entries);
        assert(merged.take(idx) =~= log.take(idx));
        assert forall|k: int| 0 <= k < entries.len() implies merged[idx + k].term
            == (#[trigger] entries[k]).term by {
            assert(merged[idx + k] == entries[k]);
        }
    }
}

/// The highest committable index never lies below the current commit index.
pub broadcast proof fn lemma_highest_committable_ge(s: NodeView, n: int)
    ensures
        #[trigger] highest_committable(s, n) >= s.commit_index,
    decreases n,
{
    if n <= s.commit_index {
    } else if committable(s, n) {
    } else {
        lemma_highest_committable_ge(s, n - 1);
    }
}

} // verus!
