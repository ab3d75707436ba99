use vstd::prelude::*;

verus! {

/// Raft membership roles
#[derive(Debug, Copy, Clone, Eq, PartialEq, Hash, Structural)]
pub enum Role {
    Follower,
    Candidate,
    Leader,
}

/// A single replicated log entry: the term in which a leader created it and an
/// opaque command payload for the application state machine.
#[derive(Debug, Copy, Clone, Eq, PartialEq, Structural)]
pub struct LogEntry {
    /// term in which the entry was created by a leader
    pub term: u64,

    /// opaque command payload, applied by the caller once committed
    pub command: u64,
}

/// The log a node starts with: only the sentinel entry at index 0, which is
/// never a real entry and always matches a consistency check against index 0.
pub open spec fn initial_log() -> Seq<LogEntry> {
    seq![LogEntry { term: 0, command: 0 }]
}

/// Single node configuration
#[derive(Debug)]
pub struct Configuration {
    /// id of the local node
    pub id: u64,

    /// list of peer nodes and their ids
    pub peers: Vec<u64>,

    /// minimum timeout until a follower node starts an election
    pub min_election_timeout: u64,

    /// maximum timeout until a follower node starts an election
    pub max_election_timeout: u64,
}

impl Configuration {
    pub fn new(
        id: u64,
        peers: Vec<u64>,
        min_election_timeout: u64,
        max_election_timeout: u64,
    ) -> (c: Configuration)
        requires
            min_election_timeout <= max_election_timeout,
        ensures
            c.id == id,
            c.peers@ == peers@,
            c.min_election_timeout == min_election_timeout,
            c.max_election_timeout == max_election_timeout,
    {
        Configuration { id, peers, min_election_timeout, max_election_timeout }
    }
}

/// Persistent state on all servers (updated on stable storage before
/// responding to RPCs; the durable write itself is the caller's job)
#[derive(Debug)]
pub struct PersistentState {
    /// latest term the server has seen (initialized to 0, increases monotonically)
    pub current_term: u64,

    /// candidate that received this node's vote in the current term (or None)
    pub voted_for: Option<u64>,

    /// log entries, 1-indexed; index 0 holds a sentinel entry of term 0
    pub log: Vec<LogEntry>,
}

impl PersistentState {
    pub fn new() -> (s: PersistentState)
        ensures
            s.current_term == 0,
            s.voted_for is None,
            s.log@ == initial_log(),
    {
        let mut log: Vec<LogEntry> = Vec::new();
        log.push(LogEntry { term: 0, command: 0 });
        proof {
            assert(log@ =~= initial_log());
        }
        PersistentState { current_term: 0, voted_for: None, log }
    }
}

/// Volatile state on all servers
#[derive(Debug)]
pub struct VolatileState {
    /// index of the highest log entry known to be committed
    /// (initialized to 0, increases monotonically)
    pub commit_index: u64,

    /// index of the highest log entry applied to the application state machine
    /// (initialized to 0, never exceeds commit_index)
    pub last_applied: u64,
}

impl VolatileState {
    pub fn new() -> (s: VolatileState)
        ensures
            s.commit_index == 0,
            s.last_applied == 0,
    {
        VolatileState { commit_index: 0, last_applied: 0 }
    }
}

/// Volatile state on leaders (rebuilt from scratch on every election win)
#[derive(Debug)]
pub struct VolatileLeaderState {
    /// for each peer, index of the next log entry to send to that peer
    /// (initialized to leader's last log index + 1)
    pub next_index: Vec<u64>,

    /// for each peer, index of the highest log entry known to be replicated
    /// on that peer (initialized to 0)
    pub match_index: Vec<u64>,
}

impl VolatileLeaderState {
    pub fn new() -> (s: VolatileLeaderState)
        ensures
            s.next_index@ == Seq::<u64>::empty(),
            s.match_index@ == Seq::<u64>::empty(),
    {
        let s = VolatileLeaderState { next_index: Vec::new(), match_index: Vec::new() };
        proof {
            assert(s.next_index@ =~= Seq::<u64>::empty());
            assert(s.match_index@ =~= Seq::<u64>::empty());
        }
        s
    }
}

/// The whole mutable state of one node
#[derive(Debug)]
pub struct State {
    pub persistent_state: PersistentState,
    pub volatile_state: VolatileState,
    pub volatile_leader_state: VolatileLeaderState,

    /// ids of the peers whose granted votes this candidate has recorded
    /// (meaningful only while role is Candidate)
    pub votes_received: Vec<u64>,

    /// current membership role of the node (initialized to Follower)
    pub role: Role,

    /// remaining ticks until an action according to the node's role is due
    pub timeout: u64,
}

impl State {
    pub fn new(timeout: u64) -> (s: State)
        ensures
            s.persistent_state.current_term == 0,
            s.persistent_state.voted_for is None,
            s.persistent_state.log@ == initial_log(),
            s.volatile_state.commit_index == 0,
            s.volatile_state.last_applied == 0,
            s.volatile_leader_state.next_index@ == Seq::<u64>::empty(),
            s.volatile_leader_state.match_index@ == Seq::<u64>::empty(),
            s.votes_received@ == Seq::<u64>::empty(),
            s.role == Role::Follower,
            s.timeout == timeout,
    {
        let s = State {
            persistent_state: PersistentState::new(),
            volatile_state: VolatileState::new(),
            volatile_leader_state: VolatileLeaderState::new(),
            votes_received: Vec::new(),
            role: Role::Follower,
            timeout,
        };
        proof {
            assert(s.votes_received@ =~= Seq::<u64>::empty());
        }
        s
    }
}

} // verus!
