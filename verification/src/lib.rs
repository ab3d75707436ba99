use vstd::prelude::*;

pub mod laws;
pub mod message;
pub mod model;
pub mod random;
pub mod state;

use crate::message::{
    msgs_view, AppendEntriesRequestMessage, AppendEntriesResponseMessage, Message,
    VoteRequestMessage, VoteResponseMessage,
};
use crate::model::{
    append_request_to, init_node, spec_advance_commit, spec_advance_time,
    spec_append_request, spec_append_response, spec_become_leader, spec_handle, spec_propose,
    spec_run, spec_start_election, spec_step_down, spec_tick, spec_vote_request,
    spec_vote_response, wf_node, NodeView, HEARTBEAT_INTERVAL,
};
use crate::random::{draw_of, next_seed_of, Random};
use crate::state::{Configuration, LogEntry, Role, State};

verus! {

/// One Raft consensus node: the decision core that an external driver steps
/// with `tick`, handing it the inbound messages and transmitting what it
/// returns. All state lives here; the node never does I/O of its own.
#[derive(Debug)]
pub struct Raft {
    pub configuration: Configuration,
    pub state: State,
    pub random: Random,
}

impl View for Raft {
    type V = NodeView;

    open spec fn view(&self) -> NodeView {
        NodeView {
            id: self.configuration.id,
            peers: self.configuration.peers@,
            min_election_timeout: self.configuration.min_election_timeout,
            max_election_timeout: self.configuration.max_election_timeout,
            current_term: self.state.persistent_state.current_term,
            voted_for: self.state.persistent_state.voted_for,
            log: self.state.persistent_state.log@,
            commit_index: self.state.volatile_state.commit_index,
            last_applied: self.state.volatile_state.last_applied,
            role: self.state.role,
            votes: self.state.votes_received@,
            next_index: self.state.volatile_leader_state.next_index@,
            match_index: self.state.volatile_leader_state.match_index@,
            timeout: self.state.timeout,
            seed: self.random.seed,
        }
    }
}

impl Raft {
    /// The node's state is well formed and its generator carries the fixed
    /// constants.
    pub open spec fn inv(&self) -> bool {
        &&& wf_node(self@)
        &&& self.random.wf()
    }

    pub fn new(configuration: Configuration) -> (r: Raft)
        requires
            configuration.min_election_timeout <= configuration.max_election_timeout,
        ensures
            r.inv(),
            r@ == init_node(
                configuration.id,
                configuration.peers@,
                configuration.min_election_timeout,
                configuration.max_election_timeout,
            ),
    {
        let mut random = Random::new(configuration.id);
        let timeout = random.next_between(
            configuration.min_election_timeout,
            configuration.max_election_timeout,
        );
        let state = State::new(timeout);
        let r = Raft { configuration, state, random };
        proof {
            assert(r@ =~= init_node(
                r.configuration.id,
                r.configuration.peers@,
                r.configuration.min_election_timeout,
                r.configuration.max_election_timeout,
            ));
        }
        r
    }

    /// Draw a fresh election timeout from the node's own generator.
    fn get_new_timeout(&mut self) -> (t: u64)
        requires
            old(self).random.wf(),
            old(self).configuration.min_election_timeout
                <= old(self).configuration.max_election_timeout,
        ensures
            final(self).random.wf(),
            final(self).random.seed == next_seed_of(old(self).random.seed),
            t == draw_of(
                old(self).random.seed,
                old(self).configuration.min_election_timeout,
                old(self).configuration.max_election_timeout,
            ),
            final(self).configuration == old(self).configuration,
            final(self).state == old(self).state,
    {
        self.random.next_between(
            self.configuration.min_election_timeout,
            self.configuration.max_election_timeout,
        )
    }

    /// Adopt the strictly greater term `term` and revert to Follower.
    fn step_down(&mut self, term: u64)
        requires
            old(self).inv(),
        ensures
            final(self).inv(),
            final(self)@ == spec_step_down(old(self)@, term),
    {
        self.state.persistent_state.current_term = term;
        self.state.persistent_state.voted_for = None;
        self.state.role = Role::Follower;
        self.state.votes_received = Vec::new();
        let t = self.get_new_timeout();
        self.state.timeout = t;
        proof {
            assert(self@ =~= spec_step_down(old(self)@, term));
        }
    }

    /// Start an election: become Candidate for the next term, vote for
    /// ourselves and ask every peer for its vote; with no peers, become Leader
    /// at once. Returns the VoteRequest messages to transmit.
    pub fn start_election(&mut self) -> (outgoing_messages: Vec<(u64, Message)>)
        requires
            old(self).inv(),
        ensures
            final(self).inv(),
            final(self)@ == spec_start_election(old(self)@).0,
            msgs_view(outgoing_messages@) == spec_start_election(old(self)@).1,
    {
        let mut out: Vec<(u64, Message)> = Vec::new();
        proof {
            assert(msgs_view(out@) =~= Seq::<(u64, crate::message::MessageView)>::empty());
        }
        self.start_election_into(&mut out);
        proof {
            assert(Seq::<(u64, crate::message::MessageView)>::empty() + spec_start_election(
                old(self)@,
            ).1 =~= spec_start_election(old(self)@).1);
        }
        out
    }

    /// As `start_election`, appending the sends to `out`.
    fn start_election_into(&mut self, out: &mut Vec<(u64, Message)>)
        requires
            old(self).inv(),
        ensures
            final(self).inv(),
            final(self)@ == spec_start_election(old(self)@).0,
            msgs_view(final(out)@) == msgs_view(old(out)@) + spec_start_election(old(self)@).1,
    {
        let ghost s0 = self@;
        if self.state.persistent_state.current_term == u64::MAX {
            proof {
                assert(self@ =~= spec_start_election(s0).0);
                assert(msgs_view(out@) =~= msgs_view(old(out)@) + spec_start_election(s0).1);
            }
            return;
        }
        if self.configuration.peers.len() == 0 {
            self.state.role = Role::Leader;
            self.state.persistent_state.current_term = self.state.persistent_state.current_term
                + 1;
            self.state.persistent_state.voted_for = Some(self.configuration.id);
            self.state.votes_received = Vec::new();
            self.state.volatile_leader_state.next_index = Vec::new();
            self.state.volatile_leader_state.match_index = Vec::new();
            self.state.timeout = HEARTBEAT_INTERVAL;
            proof {
                assert(self@ =~= spec_start_election(s0).0);
                assert(msgs_view(out@) =~= msgs_view(old(out)@) + spec_start_election(s0).1);
            }
            return;
        }
        self.state.role = Role::Candidate;
        self.state.persistent_state.current_term = self.state.persistent_state.current_term + 1;
        self.state.persistent_state.voted_for = Some(self.configuration.id);
        self.state.votes_received = Vec::new();
        let t = self.get_new_timeout();
        self.state.timeout = t;
        proof {
            assert(self@ =~= spec_start_election(s0).0);
        }
        let term = self.state.persistent_state.current_term;
        let candidate_id = self.configuration.id;
        let log_len = self.state.persistent_state.log.len();
        let last_log_index = (log_len - 1) as u64;
        let last_log_term = self.state.persistent_state.log[log_len - 1].term;
        let ghost sfin = self@;
        let ghost sent = spec_start_election(s0).1;
        let mut p: usize = 0;
        while p < self.configuration.peers.len()
            invariant
                self@ == sfin,
                self.random.wf(),
                sent == spec_start_election(s0).1,
                sfin.peers == s0.peers,
                0 <= p <= sfin.peers.len(),
                sent.len() == sfin.peers.len(),
                term == sfin.current_term,
                candidate_id == s0.id,
                log_len == s0.log.len(),
                log_len >= 1,
                last_log_index == (s0.log.len() - 1) as u64,
                last_log_term == s0.log.last().term,
                sent == Seq::new(
                    s0.peers.len(),
                    |i: int|
                        (
                            s0.peers[i],
                            crate::message::MessageView::VoteRequest {
                                term: sfin.current_term,
                                candidate_id: s0.id,
                                last_log_index: (s0.log.len() - 1) as u64,
                                last_log_term: s0.log.last().term,
                            },
                        ),
                ),
                msgs_view(out@) == msgs_view(old(out)@) + sent.take(p as int),
            decreases sfin.peers.len() - p,
        {
            let peer = self.configuration.peers[p];
            let msg = Message::VoteRequest(
                VoteRequestMessage { term, candidate_id, last_log_index, last_log_term },
            );
            let ghost mv = msg@;
            out.push((peer, msg));
            proof {
                assert(sent[p as int] == (peer, mv));
                assert(sent.take(p as int + 1) =~= sent.take(p as int).push((peer, mv)));
                assert(msgs_view(out@) =~= (msgs_view(old(out)@) + sent.take(p as int)).push(
                    (peer, mv),
                ));
                assert(msgs_view(old(out)@) + sent.take(p as int + 1) =~= (msgs_view(old(out)@)
                    + sent.take(p as int)).push((peer, mv)));
            }
            p = p + 1;
        }
        proof {
            assert(sent.take(sent.len() as int) =~= sent);
        }
    }

    /// Build and queue the AppendEntries request for the peer at position `p`:
    /// everything in the leader's log from that peer's next index onward.
    fn send_append_to_peer(&self, p: usize, out: &mut Vec<(u64, Message)>)
        requires
            self.inv(),
            self@.role == Role::Leader,
            p < self@.peers.len(),
        ensures
            msgs_view(final(out)@) == msgs_view(old(out)@).push(append_request_to(self@, p as int)),
    {
        let ni = self.state.volatile_leader_state.next_index[p];
        proof {
            assert(1 <= self@.next_index[p as int] <= self@.log.len());
        }
        let ni_us = ni as usize;
        let log = &self.state.persistent_state.log;
        let mut entries: Vec<LogEntry> = Vec::new();
        let mut k: usize = ni_us;
        while k < log.len()
            invariant
                ni_us <= k <= log@.len(),
                entries@ == log@.subrange(ni_us as int, k as int),
            decreases log@.len() - k,
        {
            let e = log[k];
            entries.push(e);
            proof {
                assert(log@.subrange(ni_us as int, k as int + 1) =~= log@.subrange(
                    ni_us as int,
                    k as int,
                ).push(log@[k as int]));
            }
            k = k + 1;
        }
        proof {
            assert(entries@ =~= self@.log.skip(ni as int));
        }
        let prev_us = ni_us - 1;
        let prev = ni - 1;
        let prev_term = log[prev_us].term;
        let msg = Message::AppendEntriesRequest(
            AppendEntriesRequestMessage {
                term: self.state.persistent_state.current_term,
                leader_id: self.configuration.id,
                previous_log_index: prev,
                previous_log_term: prev_term,
                entries,
                leader_commit_index: self.state.volatile_state.commit_index,
            },
        );
        let ghost mv = msg@;
        let peer = self.configuration.peers[p];
        out.push((peer, msg));
        proof {
            assert(mv == append_request_to(self@, p as int).1);
            assert((peer, mv) == append_request_to(self@, p as int));
            assert(msgs_view(out@) =~= msgs_view(old(out)@).push((peer, mv)));
        }
    }

    /// Win the election: become Leader, build fresh replication progress for
    /// every peer, and broadcast an immediate (empty) AppendEntries to assert
    /// leadership.
    fn become_leader(&mut self, out: &mut Vec<(u64, Message)>)
        requires
            old(self).inv(),
        ensures
            final(self).inv(),
            final(self)@ == spec_become_leader(old(self)@).0,
            msgs_view(final(out)@) == msgs_view(old(out)@) + spec_become_leader(old(self)@).1,
    {
        let ghost s0 = self@;
        self.state.role = Role::Leader;
        self.state.votes_received = Vec::new();
        let n = self.configuration.peers.len();
        let next = self.state.persistent_state.log.len() as u64;
        let mut next_index: Vec<u64> = Vec::new();
        let mut match_index: Vec<u64> = Vec::new();
        let mut i: usize = 0;
        while i < n
            invariant
                0 <= i <= n,
                next_index@.len() == i,
                match_index@.len() == i,
                forall|k: int| 0 <= k < i ==> #[trigger] next_index@[k] == next,
                forall|k: int| 0 <= k < i ==> #[trigger] match_index@[k] == 0,
            decreases n - i,
        {
            next_index.push(next);
            match_index.push(0);
            i = i + 1;
        }
        self.state.volatile_leader_state.next_index = next_index;
        self.state.volatile_leader_state.match_index = match_index;
        self.state.timeout = HEARTBEAT_INTERVAL;
        proof {
            assert(self@.next_index =~= spec_become_leader(s0).0.next_index);
            assert(self@.match_index =~= spec_become_leader(s0).0.match_index);
            assert(self@ =~= spec_become_leader(s0).0);
        }
        let ghost sfin = self@;
        let ghost sent = spec_become_leader(s0).1;
        let mut p: usize = 0;
        while p < n
            invariant
                self@ == sfin,
                self.inv(),
                self@.role == Role::Leader,
                0 <= p <= n,
                n == sfin.peers.len(),
                sent == Seq::new(sfin.peers.len(), |i: int| append_request_to(sfin, i)),
                msgs_view(out@) == msgs_view(old(out)@) + sent.take(p as int),
            decreases n - p,
        {
            self.send_append_to_peer(p, out);
            proof {
                assert(sent[p as int] == append_request_to(sfin, p as int));
                assert(sent.take(p as int + 1) =~= sent.take(p as int).push(sent[p as int]));
                assert(msgs_view(old(out)@) + sent.take(p as int + 1) =~= (msgs_view(old(out)@)
                    + sent.take(p as int)).push(sent[p as int]));
            }
            p = p + 1;
        }
        proof {
            assert(sent.take(n as int) =~= sent);
        }
    }

    /// Grant or refuse a vote (see the reply's `vote_granted`): granted iff the
    /// request's term is current, no different candidate got this node's vote
    /// in that term, and the candidate's log is at least as up-to-date.
    fn handle_vote_request(&mut self, from: u64, m: &VoteRequestMessage, out: &mut Vec<(u64, Message)>)
        requires
            old(self).inv(),
        ensures
            final(self).inv(),
            final(self)@ == spec_vote_request(
                old(self)@,
                from,
                m.term,
                m.candidate_id,
                m.last_log_index,
                m.last_log_term,
            ).0,
            msgs_view(final(out)@) == msgs_view(old(out)@) + spec_vote_request(
                old(self)@,
                from,
                m.term,
                m.candidate_id,
                m.last_log_index,
                m.last_log_term,
            ).1,
    {
        let ghost s0 = self@;
        let ghost res = spec_vote_request(
            s0,
            from,
            m.term,
            m.candidate_id,
            m.last_log_index,
            m.last_log_term,
        );
        let term_ok = m.term >= self.state.persistent_state.current_term;
        let adopted = m.term > self.state.persistent_state.current_term;
        if adopted {
            self.state.persistent_state.current_term = m.term;
            self.state.persistent_state.voted_for = None;
            self.state.role = Role::Follower;
            self.state.votes_received = Vec::new();
        }
        let log_len = self.state.persistent_state.log.len();
        let my_last_term = self.state.persistent_state.log[log_len - 1].term;
        let my_last_index = (log_len - 1) as u64;
        let up_to_date = m.last_log_term > my_last_term || (m.last_log_term == my_last_term
            && m.last_log_index >= my_last_index);
        let vote_free = match self.state.persistent_state.voted_for {
            None => true,
            Some(v) => v == m.candidate_id,
        };
        let grant = term_ok && vote_free && up_to_date;
        if grant {
            self.state.persistent_state.voted_for = Some(m.candidate_id);
        }
        if adopted || grant {
            let t = self.get_new_timeout();
            self.state.timeout = t;
        }
        let reply = Message::VoteResponse(
            VoteResponseMessage {
                term: self.state.persistent_state.current_term,
                vote_granted: grant,
            },
        );
        let ghost rv = reply@;
        out.push((from, reply));
        proof {
            assert(self@ =~= res.0);
            assert(rv == res.1[0].1);
            assert(msgs_view(out@) =~= msgs_view(old(out)@).push((from, rv)));
            assert(msgs_view(old(out)@) + res.1 =~= msgs_view(old(out)@).push((from, rv)));
        }
    }

    /// Count a granted vote (once per peer) while campaigning; on reaching a
    /// strict majority of the cluster, win the election. A response carrying a
    /// greater term ends the campaign instead.
    fn handle_vote_response(&mut self, from: u64, m: &VoteResponseMessage, out: &mut Vec<(u64, Message)>)
        requires
            old(self).inv(),
        ensures
            final(self).inv(),
            final(self)@ == spec_vote_response(old(self)@, from, m.term, m.vote_granted).0,
            msgs_view(final(out)@) == msgs_view(old(out)@) + spec_vote_response(
                old(self)@,
                from,
                m.term,
                m.vote_granted,
            ).1,
    {
        let ghost s0 = self@;
        let ghost res = spec_vote_response(s0, from, m.term, m.vote_granted);
        let ghost empty_tail = Seq::<(u64, crate::message::MessageView)>::empty();
        if m.term > self.state.persistent_state.current_term {
            self.step_down(m.term);
            proof {
                assert(self@ =~= res.0);
                assert(msgs_view(out@) =~= msgs_view(old(out)@) + res.1);
            }
            return;
        }
        if !(self.state.role == Role::Candidate) || m.term
            < self.state.persistent_state.current_term || !m.vote_granted {
            proof {
                assert(self@ =~= res.0);
                assert(msgs_view(out@) =~= msgs_view(old(out)@) + res.1);
            }
            return;
        }
        let in_peers = contains_id(&self.configuration.peers, from);
        let already = contains_id(&self.state.votes_received, from);
        if in_peers && !already {
            self.state.votes_received.push(from);
            proof {
                assert(self@.votes.no_duplicates());
                assert(self@ =~= (NodeView { votes: s0.votes.push(from), ..s0 }));
            }
            let votes_len = self.state.votes_received.len();
            let peers_len = self.configuration.peers.len();
            if 2 * ((votes_len as u128) + 1) > (peers_len as u128) + 1 {
                self.become_leader(out);
                proof {
                    assert(self@ =~= res.0);
                    assert(msgs_view(out@) =~= msgs_view(old(out)@) + res.1);
                }
            } else {
                proof {
                    assert(self@ =~= res.0);
                    assert(msgs_view(out@) =~= msgs_view(old(out)@) + res.1);
                }
            }
        } else {
            proof {
                assert(self@ =~= res.0);
                assert(msgs_view(out@) =~= msgs_view(old(out)@) + res.1);
            }
        }
    }

    /// How many peers are known to hold the entry at index `n`.
    fn count_matching(&self, n: u64) -> (c: usize)
        requires
            self.inv(),
            self@.role == Role::Leader,
        ensures
            c == crate::model::count_ge(self@.match_index, n),
            c <= self@.match_index.len(),
    {
        let mvec = &self.state.volatile_leader_state.match_index;
        let mut c: usize = 0;
        let mut i: usize = 0;
        while i < mvec.len()
            invariant
                0 <= i <= mvec@.len(),
                c <= i,
                c == crate::model::count_ge(mvec@.take(i as int), n),
            decreases mvec@.len() - i,
        {
            let hit = mvec[i] >= n;
            proof {
                assert(mvec@.take(i as int + 1).drop_last() =~= mvec@.take(i as int));
                assert(mvec@.take(i as int + 1).last() == mvec@[i as int]);
            }
            if hit {
                c = c + 1;
            }
            i = i + 1;
        }
        proof {
            assert(mvec@.take(mvec@.len() as int) =~= mvec@);
        }
        c
    }

    /// Whether the leader may commit index `n`: a strict majority of the
    /// cluster (itself counted) holds the entry and the entry carries the
    /// leader's own term.
    fn committable_at(&self, n: u64) -> (r: bool)
        requires
            self.inv(),
            self@.role == Role::Leader,
            self@.commit_index < n < self@.log.len(),
        ensures
            r == crate::model::committable(self@, n as int),
    {
        let log_len = self.state.persistent_state.log.len();
        proof {
            assert((n as int) < (log_len as int));
        }
        let t = self.state.persistent_state.log[n as usize].term;
        if t != self.state.persistent_state.current_term {
            return false;
        }
        let c = self.count_matching(n);
        2 * ((c as u128) + 1) > (self.configuration.peers.len() as u128) + 1
    }

    /// Recompute the leader's commit index: the highest log index that a
    /// strict majority holds and that was created in the leader's own term.
    fn advance_commit_index(&mut self)
        requires
            old(self).inv(),
            old(self)@.role == Role::Leader,
        ensures
            final(self).inv(),
            final(self)@ == spec_advance_commit(old(self)@),
    {
        let ghost s0 = self@;
        let log_len = self.state.persistent_state.log.len();
        let mut n: u64 = (log_len - 1) as u64;
        let commit = self.state.volatile_state.commit_index;
        proof {
            assert(crate::model::highest_committable(s0, log_len - 1) == crate::model::highest_committable(
                s0,
                n as int,
            ));
        }
        while n > commit && !self.committable_at(n)
            invariant
                self@ == s0,
                self.inv(),
                self@.role == Role::Leader,
                commit == s0.commit_index,
                log_len == s0.log.len(),
                n < log_len,
                n as int == log_len - 1 || n >= commit,
                crate::model::highest_committable(s0, log_len - 1) == crate::model::highest_committable(
                    s0,
                    n as int,
                ),
            decreases n,
        {
            n = n - 1;
        }
        if n > commit {
            self.state.volatile_state.commit_index = n;
        }
        proof {
            assert(self@ =~= spec_advance_commit(s0));
        }
    }

    /// Accept or reject a leader's entries: adopt the leader (become Follower,
    /// defer the timeout), check the log at the request's previous index, and
    /// on success merge the entries and raise the commit index toward the
    /// leader's.
    fn handle_append_request(
        &mut self,
        from: u64,
        m: &AppendEntriesRequestMessage,
        out: &mut Vec<(u64, Message)>,
    )
        requires
            old(self).inv(),
        ensures
            final(self).inv(),
            final(self)@ == spec_append_request(
                old(self)@,
                from,
                m.term,
                m.leader_id,
                m.previous_log_index,
                m.previous_log_term,
                m.entries@,
                m.leader_commit_index,
            ).0,
            msgs_view(final(out)@) == msgs_view(old(out)@) + spec_append_request(
                old(self)@,
                from,
                m.term,
                m.leader_id,
                m.previous_log_index,
                m.previous_log_term,
                m.entries@,
                m.leader_commit_index,
            ).1,
    {
        let ghost s0 = self@;
        let ghost res = spec_append_request(
            s0,
            from,
            m.term,
            m.leader_id,
            m.previous_log_index,
            m.previous_log_term,
            m.entries@,
            m.leader_commit_index,
        );
        let cur = self.state.persistent_state.current_term;
        if m.term < cur {
            let reply = Message::AppendEntriesResponse(
                AppendEntriesResponseMessage { term: cur, success: false, match_index: 0 },
            );
            let ghost rv = reply@;
            out.push((from, reply));
            proof {
                assert(self@ =~= res.0);
                assert(msgs_view(out@) =~= msgs_view(old(out)@).push((from, rv)));
                assert(msgs_view(old(out)@) + res.1 =~= msgs_view(old(out)@).push((from, rv)));
            }
            return;
        }
        if m.term > cur {
            self.state.persistent_state.voted_for = None;
        }
        self.state.persistent_state.current_term = m.term;
        self.state.role = Role::Follower;
        self.state.votes_received = Vec::new();
        let t = self.get_new_timeout();
        self.state.timeout = t;
        let log_len = self.state.persistent_state.log.len();
        let ok = m.previous_log_index == 0 || (m.previous_log_index < (log_len as u64)
            && self.state.persistent_state.log[m.previous_log_index as usize].term
            == m.previous_log_term);
        if !ok {
            let reply = Message::AppendEntriesResponse(
                AppendEntriesResponseMessage {
                    term: self.state.persistent_state.current_term,
                    success: false,
                    match_index: 0,
                },
            );
            let ghost rv = reply@;
            out.push((from, reply));
            proof {
                assert(self@ =~= res.0);
                assert(msgs_view(out@) =~= msgs_view(old(out)@).push((from, rv)));
                assert(msgs_view(old(out)@) + res.1 =~= msgs_view(old(out)@).push((from, rv)));
            }
            return;
        }
        let prev = m.previous_log_index as usize;
        let idx0 = prev + 1;
        let ghost log0 = self@.log;
        let ghost smid = self@;
        let ghost merged = crate::model::merge_log(log0, idx0 as int, m.entries@);
        let n_entries = m.entries.len();
        let j = scan_match(&self.state.persistent_state.log, idx0, &m.entries);
        if j < n_entries {
            self.state.persistent_state.log.truncate(idx0 + j);
            proof {
                assert(self@.log =~= log0.take((idx0 + j) as int));
            }
            let mut k: usize = j;
            while k < n_entries
                invariant
                    self.random.wf(),
                    j <= k <= n_entries,
                    n_entries == m.entries@.len(),
                    0 <= idx0 + j <= log0.len(),
                    self@ == (NodeView {
                        log: log0.take((idx0 + j) as int) + m.entries@.subrange(
                            j as int,
                            k as int,
                        ),
                        ..smid
                    }),
                decreases n_entries - k,
            {
                let e = m.entries[k];
                self.state.persistent_state.log.push(e);
                proof {
                    assert(m.entries@.subrange(j as int, k as int + 1) =~= m.entries@.subrange(
                        j as int,
                        k as int,
                    ).push(m.entries@[k as int]));
                    assert(log0.take((idx0 + j) as int) + m.entries@.subrange(
                        j as int,
                        k as int + 1,
                    ) =~= (log0.take((idx0 + j) as int) + m.entries@.subrange(
                        j as int,
                        k as int,
                    )).push(m.entries@[k as int]));
                    assert(self@ =~= (NodeView {
                        log: log0.take((idx0 + j) as int) + m.entries@.subrange(
                            j as int,
                            k as int + 1,
                        ),
                        ..smid
                    }));
                }
                k = k + 1;
            }
            proof {
                assert(m.entries@.subrange(j as int, n_entries as int) =~= m.entries@.skip(
                    j as int,
                ));
                assert(merged == log0.take((idx0 + j) as int) + m.entries@.skip(j as int));
                assert(self@.log == merged);
            }
        } else {
            proof {
                assert(m.entries@.skip(j as int) =~= Seq::<LogEntry>::empty());
                assert(merged == log0);
            }
        }
        let new_len = self.state.persistent_state.log.len();
        proof {
            crate::model::lemma_merge_log_facts(log0, idx0 as int, m.entries@);
            assert(self@.log == merged);
            assert(self@.log.take(idx0 as int) == log0.take(idx0 as int));
            assert(self@.log[0] == self@.log.take(idx0 as int)[0]);
            assert(log0.take(idx0 as int)[0] == log0[0]);
            assert(prev + m.entries@.len() < new_len);
        }
        let last_new = prev + n_entries;
        let last_new_u = last_new as u64;
        let lc = m.leader_commit_index;
        let capped = if lc <= last_new_u {
            lc
        } else {
            last_new_u
        };
        if capped > self.state.volatile_state.commit_index {
            self.state.volatile_state.commit_index = capped;
        }
        let reply = Message::AppendEntriesResponse(
            AppendEntriesResponseMessage { term: m.term, success: true, match_index: last_new_u },
        );
        let ghost rv = reply@;
        out.push((from, reply));
        proof {
            assert(self@ =~= res.0);
            assert(msgs_view(out@) =~= msgs_view(old(out)@).push((from, rv)));
            assert(msgs_view(old(out)@) + res.1 =~= msgs_view(old(out)@).push((from, rv)));
        }
    }

    /// React to a peer's replication answer: a rejected request lowers that
    /// peer's next index by one and resends at once; an acknowledgment raises
    /// the peer's replication progress and recomputes the commit index. A
    /// greater term means this leader is stale and steps down.
    fn handle_append_response(
        &mut self,
        from: u64,
        m: &AppendEntriesResponseMessage,
        out: &mut Vec<(u64, Message)>,
    )
        requires
            old(self).inv(),
        ensures
            final(self).inv(),
            final(self)@ == spec_append_response(old(self)@, from, m.term, m.success, m.match_index).0,
            msgs_view(final(out)@) == msgs_view(old(out)@) + spec_append_response(
                old(self)@,
                from,
                m.term,
                m.success,
                m.match_index,
            ).1,
    {
        let ghost s0 = self@;
        let ghost res = spec_append_response(s0, from, m.term, m.success, m.match_index);
        if m.term > self.state.persistent_state.current_term {
            self.step_down(m.term);
            proof {
                assert(self@ =~= res.0);
                assert(msgs_view(out@) =~= msgs_view(old(out)@) + res.1);
            }
            return;
        }
        if !(self.state.role == Role::Leader) || m.term
            < self.state.persistent_state.current_term {
            proof {
                assert(self@ =~= res.0);
                assert(msgs_view(out@) =~= msgs_view(old(out)@) + res.1);
            }
            return;
        }
        let p_opt = find_peer(&self.configuration.peers, from);
        match p_opt {
            None => {
                proof {
                    assert(self@ =~= res.0);
                    assert(msgs_view(out@) =~= msgs_view(old(out)@) + res.1);
                }
            },
            Some(p) => {
                if !m.success {
                    let ni = self.state.volatile_leader_state.next_index[p];
                    let lowered = if ni > 1 {
                        ni - 1
                    } else {
                        1
                    };
                    self.state.volatile_leader_state.next_index[p] = lowered;
                    proof {
                        assert(self@ =~= (NodeView {
                            next_index: s0.next_index.update(p as int, lowered),
                            ..s0
                        }));
                        assert(self@ == res.0);
                    }
                    self.send_append_to_peer(p, out);
                    proof {
                        assert(res.1[0] == append_request_to(self@, p as int));
                        assert(msgs_view(old(out)@) + res.1 =~= msgs_view(old(out)@).push(
                            res.1[0],
                        ));
                    }
                } else {
                    let log_len = self.state.persistent_state.log.len();
                    let last = (log_len - 1) as u64;
                    let capped = if m.match_index <= last {
                        m.match_index
                    } else {
                        last
                    };
                    let cur_mi = self.state.volatile_leader_state.match_index[p];
                    let raised = if capped > cur_mi {
                        capped
                    } else {
                        cur_mi
                    };
                    self.state.volatile_leader_state.match_index[p] = raised;
                    self.state.volatile_leader_state.next_index[p] = raised + 1;
                    let ghost s1 = self@;
                    proof {
                        assert(s1 =~= (NodeView {
                            match_index: s0.match_index.update(p as int, raised),
                            next_index: s0.next_index.update(p as int, (raised + 1) as u64),
                            ..s0
                        }));
                    }
                    self.advance_commit_index();
                    proof {
                        assert(self@ =~= res.0);
                        assert(msgs_view(out@) =~= msgs_view(old(out)@) + res.1);
                    }
                }
            },
        }
    }

    /// Let one unit of time elapse: the timeout counter goes down by one; at
    /// zero a follower or candidate starts an election, and a leader
    /// broadcasts AppendEntries and rearms its heartbeat.
    fn advance_time(&mut self, out: &mut Vec<(u64, Message)>)
        requires
            old(self).inv(),
        ensures
            final(self).inv(),
            final(self)@ == spec_advance_time(old(self)@).0,
            msgs_view(final(out)@) == msgs_view(old(out)@) + spec_advance_time(old(self)@).1,
    {
        let ghost s0 = self@;
        let ghost res = spec_advance_time(s0);
        if self.state.timeout > 0 {
            self.state.timeout = self.state.timeout - 1;
        }
        if self.state.timeout == 0 {
            if self.state.role == Role::Leader {
                self.state.timeout = HEARTBEAT_INTERVAL;
                let ghost sfin = self@;
                let ghost sent = res.1;
                proof {
                    assert(sfin =~= res.0);
                    assert(sent == Seq::new(s0.peers.len(), |i: int| append_request_to(sfin, i)));
                }
                let n = self.configuration.peers.len();
                let mut p: usize = 0;
                while p < n
                    invariant
                        self@ == sfin,
                        self.inv(),
                        self@.role == Role::Leader,
                        0 <= p <= n,
                        n == sfin.peers.len(),
                        sent == Seq::new(sfin.peers.len(), |i: int| append_request_to(sfin, i)),
                        msgs_view(out@) == msgs_view(old(out)@) + sent.take(p as int),
                    decreases n - p,
                {
                    self.send_append_to_peer(p, out);
                    proof {
                        assert(sent[p as int] == append_request_to(sfin, p as int));
                        assert(sent.take(p as int + 1) =~= sent.take(p as int).push(
                            sent[p as int],
                        ));
                        assert(msgs_view(old(out)@) + sent.take(p as int + 1) =~= (msgs_view(
                            old(out)@,
                        ) + sent.take(p as int)).push(sent[p as int]));
                    }
                    p = p + 1;
                }
                proof {
                    assert(sent.take(n as int) =~= sent);
                }
            } else {
                proof {
                    assert(self@ =~= (NodeView {
                        timeout: if s0.timeout > 0 {
                            (s0.timeout - 1) as u64
                        } else {
                            0u64
                        },
                        ..s0
                    }));
                }
                self.start_election_into(out);
            }
        } else {
            proof {
                assert(self@ =~= res.0);
                assert(msgs_view(out@) =~= msgs_view(old(out)@) + res.1);
            }
        }
    }

    /// Process one inbound message from `from`, queueing any replies.
    fn handle_message(&mut self, from: u64, m: &Message, out: &mut Vec<(u64, Message)>)
        requires
            old(self).inv(),
        ensures
            final(self).inv(),
            final(self)@ == spec_handle(old(self)@, from, m@).0,
            msgs_view(final(out)@) == msgs_view(old(out)@) + spec_handle(old(self)@, from, m@).1,
    {
        match m {
            Message::AppendEntriesRequest(r) => self.handle_append_request(from, r, out),
            Message::AppendEntriesResponse(r) => self.handle_append_response(from, r, out),
            Message::VoteRequest(r) => self.handle_vote_request(from, r, out),
            Message::VoteResponse(r) => self.handle_vote_response(from, r, out),
        }
    }

    /// The node's single mutating entry point: advance logical time by one
    /// unit, then process every inbound message in order; the returned list is
    /// what the driver must transmit this round, each message tagged with the
    /// node it goes to (inbound messages are tagged with their sender).
    pub fn tick(&mut self, incoming_messages: Vec<(u64, Message)>) -> (outgoing_messages: Vec<
        (u64, Message),
    >)
        requires
            old(self).inv(),
        ensures
            final(self).inv(),
            final(self)@ == spec_tick(old(self)@, msgs_view(incoming_messages@)).0,
            msgs_view(outgoing_messages@) == spec_tick(old(self)@, msgs_view(incoming_messages@)).1,
            final(self)@.commit_index >= old(self)@.commit_index,
            final(self)@.current_term >= old(self)@.current_term,
            final(self)@.current_term == old(self)@.current_term && old(self)@.voted_for is Some
                ==> final(self)@.voted_for == old(self)@.voted_for,
    {
        let ghost s0 = self@;
        let ghost msgs = msgs_view(incoming_messages@);
        let mut outgoing: Vec<(u64, Message)> = Vec::new();
        proof {
            assert(msgs_view(outgoing@) =~= Seq::<(u64, crate::message::MessageView)>::empty());
        }
        self.advance_time(&mut outgoing);
        let ghost s_mid = self@;
        let ghost o_mid = msgs_view(outgoing@);
        proof {
            assert(Seq::<(u64, crate::message::MessageView)>::empty() + spec_advance_time(s0).1
                =~= spec_advance_time(s0).1);
            assert(o_mid == spec_advance_time(s0).1);
            assert(msgs.skip(0) =~= msgs);
        }
        let ghost mut done = Seq::<(u64, crate::message::MessageView)>::empty();
        proof {
            assert(done + spec_run(s_mid, msgs).1 =~= spec_run(s_mid, msgs).1);
            assert(o_mid + done =~= o_mid);
        }
        let mut i: usize = 0;
        while i < incoming_messages.len()
            invariant
                self.inv(),
                0 <= i <= incoming_messages@.len(),
                msgs == msgs_view(incoming_messages@),
                msgs.len() == incoming_messages@.len(),
                spec_run(s_mid, msgs).0 == spec_run(self@, msgs.skip(i as int)).0,
                spec_run(s_mid, msgs).1 == done + spec_run(self@, msgs.skip(i as int)).1,
                msgs_view(outgoing@) == o_mid + done,
            decreases incoming_messages@.len() - i,
        {
            let pair = &incoming_messages[i];
            let ghost pre = self@;
            let ghost step = spec_handle(pre, pair.0, pair.1@);
            proof {
                assert(msgs[i as int] == (pair.0, pair.1@));
                assert(msgs.skip(i as int)[0] == msgs[i as int]);
                assert(msgs.skip(i as int).skip(1) =~= msgs.skip(i as int + 1));
            }
            self.handle_message(pair.0, &pair.1, &mut outgoing);
            proof {
                assert(spec_run(pre, msgs.skip(i as int)).0 == spec_run(
                    step.0,
                    msgs.skip(i as int + 1),
                ).0);
                assert(spec_run(pre, msgs.skip(i as int)).1 == step.1 + spec_run(
                    step.0,
                    msgs.skip(i as int + 1),
                ).1);
                assert(done + (step.1 + spec_run(step.0, msgs.skip(i as int + 1)).1) =~= (done
                    + step.1) + spec_run(step.0, msgs.skip(i as int + 1)).1);
                assert((o_mid + done) + step.1 =~= o_mid + (done + step.1));
                done = done + step.1;
            }
            i = i + 1;
        }
        proof {
            assert(msgs.skip(incoming_messages@.len() as int) =~= Seq::<(
                u64,
                crate::message::MessageView,
            )>::empty());
            assert(spec_run(s_mid, msgs).0 == self@);
            assert(done + Seq::<(u64, crate::message::MessageView)>::empty() =~= done);
            assert(spec_run(s_mid, msgs).1 == done);
            assert(msgs_view(outgoing@) == o_mid + spec_run(s_mid, msgs).1);
            crate::laws::lemma_commit_monotonic(s0, msgs);
            crate::laws::lemma_term_monotonic(s0, msgs);
            if s0.voted_for is Some {
                crate::laws::lemma_vote_monotonic(s0, msgs, s0.voted_for->Some_0);
            }
        }
        outgoing
    }

    /// The node's current membership role.
    pub fn role(&self) -> (r: Role)
        ensures
            r == self@.role,
    {
        self.state.role
    }

    /// The latest term this node has seen.
    pub fn current_term(&self) -> (t: u64)
        ensures
            t == self@.current_term,
    {
        self.state.persistent_state.current_term
    }

    /// The highest log index known to be committed; entries up to it may be
    /// applied by the caller.
    pub fn commit_index(&self) -> (c: u64)
        ensures
            c == self@.commit_index,
    {
        self.state.volatile_state.commit_index
    }

    /// The replicated log, sentinel entry at index 0 included.
    pub fn log(&self) -> (l: &Vec<LogEntry>)
        ensures
            l@ == self@.log,
    {
        &self.state.persistent_state.log
    }

    /// Accept a client command: a leader appends it to its own log as an entry
    /// of its current term (to be replicated and committed later); any other
    /// role refuses it, and the caller must route the command to the leader.
    pub fn propose(&mut self, command: u64) -> (accepted: bool)
        requires
            old(self).inv(),
        ensures
            final(self).inv(),
            final(self)@ == spec_propose(old(self)@, command),
            accepted == (old(self)@.role == Role::Leader),
    {
        if self.state.role == Role::Leader {
            let term = self.state.persistent_state.current_term;
            self.state.persistent_state.log.push(LogEntry { term, command });
            proof {
                assert(self@ =~= spec_propose(old(self)@, command));
            }
            true
        } else {
            proof {
                assert(self@ =~= spec_propose(old(self)@, command));
            }
            false
        }
    }
}

/// How many of the incoming entries, laid down from `idx0`, already match the
/// log (same index, same term). The merge of the entries into the log is
/// unchanged by skipping that matched prefix.
fn scan_match(log: &Vec<LogEntry>, idx0: usize, entries: &Vec<LogEntry>) -> (j: usize)
    requires
        idx0 <= log@.len(),
    ensures
        0 <= j <= entries@.len(),
        idx0 + j <= log@.len(),
        crate::model::merge_log(log@, idx0 as int, entries@) == crate::model::merge_log(
            log@,
            idx0 + j as int,
            entries@.skip(j as int),
        ),
        j < entries@.len() ==> idx0 + j >= log@.len() || log@[idx0 + j].term
            != entries@[j as int].term,
{
    let mut j: usize = 0;
    proof {
        assert(entries@.skip(0) =~= entries@);
    }
    while j < entries.len()
        invariant
            0 <= j <= entries@.len(),
            idx0 + j <= log@.len(),
            crate::model::merge_log(log@, idx0 as int, entries@) == crate::model::merge_log(
                log@,
                idx0 + j as int,
                entries@.skip(j as int),
            ),
        decreases entries@.len() - j,
    {
        if log.len() - idx0 <= j {
            return j;
        }
        if log[idx0 + j].term != entries[j].term {
            return j;
        }
        proof {
            assert(entries@.skip(j as int)[0] == entries@[j as int]);
            assert(entries@.skip(j as int).skip(1) =~= entries@.skip(j as int + 1));
        }
        j = j + 1;
    }
    j
}

/// Linear search for an id in a list of node ids.
fn contains_id(v: &Vec<u64>, x: u64) -> (r: bool)
    ensures
        r == v@.contains(x),
{
    let mut i: usize = 0;
    while i < v.len()
        invariant
            0 <= i <= v@.len(),
            forall|k: int| 0 <= k < i ==> v@[k] != x,
        decreases v@.len() - i,
    {
        if v[i] == x {
            proof {
                assert(v@[i as int] == x);
            }
            return true;
        }
        i = i + 1;
    }
    false
}

/// The position of a peer id in the configured peer list, if it is there: the
/// first position, matching `Seq::index_of_first`.
fn find_peer(peers: &Vec<u64>, id: u64) -> (r: Option<usize>)
    ensures
        match r {
            Some(p) => peers@.index_of_first(id) == Some(p as int) && p < peers@.len()
                && peers@[p as int] == id,
            None => peers@.index_of_first(id) is None,
        },
{
    let mut i: usize = 0;
    while i < peers.len()
        invariant
            0 <= i <= peers@.len(),
            forall|k: int| 0 <= k < i ==> peers@[k] != id,
        decreases peers@.len() - i,
    {
        if peers[i] == id {
            proof {
                peers@.index_of_first_ensures(id);
                assert(peers@[i as int] == id);
                assert(peers@.contains(id));
            }
            return Some(i);
        }
        i = i + 1;
    }
    proof {
        peers@.index_of_first_ensures(id);
        if peers@.contains(id) {
            let w = choose|w: int| 0 <= w < peers@.len() && peers@[w] == id;
            assert(peers@[w] != id);
        }
    }
    None
}

} // verus!
