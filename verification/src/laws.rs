use vstd::prelude::*;

use crate::message::MessageView;
use crate::model::{
    merge_log, spec_advance_time, spec_handle, spec_run, spec_tick, spec_vote_response, NodeView,
};
use crate::state::LogEntry;

verus! {

/// Two finite disjoint sets contribute their sizes in full to their union.
proof fn lemma_len_disjoint_union<A>(s1: Set<A>, s2: Set<A>)
    requires
        s1.finite(),
        s2.finite(),
        s1.intersect(s2).is_empty(),
    ensures
        s1.union(s2).finite(),
        s1.union(s2).len() == s1.len() + s2.len(),
    decreases s1.len(),
{
    broadcast use vstd::set::group_set_axioms;

    if s1.is_empty() {
        assert(s1.union(s2) =~= s2);
    } else {
        let a = s1.choose();
        assert(s1.contains(a));
        if s2.contains(a) {
            assert(s1.intersect(s2).contains(a));
        }
        assert(s1.remove(a).intersect(s2) =~= Set::empty());
        lemma_len_disjoint_union(s1.remove(a), s2);
        assert(s1.union(s2) =~= s1.remove(a).union(s2).insert(a));
        assert(!s1.remove(a).union(s2).contains(a));
    }
}

/// Election safety: in any one term, two election winners must be the same
/// node. Each winner gathered votes from a strict majority of the cluster, and
/// a node votes for at most one candidate per term (`vote_of` maps each voter
/// to the candidate it voted for in that term), so the two majorities overlap
/// in a node that voted for both — hence at most one node holds role Leader
/// for any given term.
pub proof fn lemma_election_safety(
    nodes: Set<u64>,
    voters_a: Set<u64>,
    voters_b: Set<u64>,
    vote_of: Map<u64, u64>,
    a: u64,
    b: u64,
)
    requires
        nodes.finite(),
        voters_a.subset_of(nodes),
        voters_b.subset_of(nodes),
        2 * voters_a.len() > nodes.len(),
        2 * voters_b.len() > nodes.len(),
        forall|n: u64| voters_a.contains(n) ==> #[trigger] vote_of[n] == a,
        forall|n: u64| voters_b.contains(n) ==> #[trigger] vote_of[n] == b,
    ensures
        a == b,
{
    broadcast use vstd::set::group_set_axioms;

    vstd::set_lib::lemma_len_subset(voters_a, nodes);
    vstd::set_lib::lemma_len_subset(voters_b, nodes);
    if voters_a.intersect(voters_b).is_empty() {
        lemma_len_disjoint_union(voters_a, voters_b);
        assert(voters_a.union(voters_b).subset_of(nodes));
        vstd::set_lib::lemma_len_subset(voters_a.union(voters_b), nodes);
    } else {
        let w = voters_a.intersect(voters_b).choose();
        assert(voters_a.intersect(voters_b).contains(w));
        assert(vote_of[w] == a);
        assert(vote_of[w] == b);
    }
}

/// A campaign only ends in leadership through votes from a strict majority:
/// whenever a vote response turns a non-leader into a leader, the node had
/// gathered granted votes from distinct peers which, counting its own implicit
/// vote, form a strict majority of the cluster — the hypothesis that
/// `lemma_election_safety` turns into "at most one leader per term".
pub proof fn lemma_leadership_requires_majority(s: NodeView, from: u64, term: u64, granted: bool)
    requires
        crate::model::wf_node(s),
        s.role != crate::state::Role::Leader,
        spec_vote_response(s, from, term, granted).0.role == crate::state::Role::Leader,
    ensures
        crate::model::is_majority(s.votes.push(from).len() + 1int, s.peers.len() + 1int),
        s.votes.push(from).no_duplicates(),
        forall|i: int|
            0 <= i < s.votes.push(from).len() ==> s.peers.contains(#[trigger] s.votes.push(
                from,
            )[i]),
{
    assert(s.peers.contains(from) && !s.votes.contains(from));
}

/// One handled message never lowers the node's term or its commit index.
proof fn lemma_handle_monotonic(s: NodeView, from: u64, m: MessageView)
    ensures
        spec_handle(s, from, m).0.current_term >= s.current_term,
        spec_handle(s, from, m).0.commit_index >= s.commit_index,
{
    broadcast use crate::model::lemma_highest_committable_ge;

}

/// One unit of elapsed time never lowers the node's term or its commit index.
proof fn lemma_advance_time_monotonic(s: NodeView)
    ensures
        spec_advance_time(s).0.current_term >= s.current_term,
        spec_advance_time(s).0.commit_index >= s.commit_index,
{
}

/// A whole inbound batch never lowers the node's term or its commit index.
proof fn lemma_run_monotonic(s: NodeView, inbound: Seq<(u64, MessageView)>)
    ensures
        spec_run(s, inbound).0.current_term >= s.current_term,
        spec_run(s, inbound).0.commit_index >= s.commit_index,
    decreases inbound.len(),
{
    if inbound.len() > 0 {
        lemma_handle_monotonic(s, inbound[0].0, inbound[0].1);
        lemma_run_monotonic(spec_handle(s, inbound[0].0, inbound[0].1).0, inbound.skip(1));
    }
}

/// Commit monotonicity: the commit index never decreases across a step,
/// whatever messages arrive — a leader only raises it toward a majority-held
/// index of its own term, and a follower only raises it toward its leader's.
pub proof fn lemma_commit_monotonic(s: NodeView, inbound: Seq<(u64, MessageView)>)
    ensures
        spec_tick(s, inbound).0.commit_index >= s.commit_index,
{
    lemma_advance_time_monotonic(s);
    lemma_run_monotonic(spec_advance_time(s).0, inbound);
}

/// Term monotonicity: the current term never decreases across a step; a node
/// only adopts strictly greater terms and elections only increment it.
pub proof fn lemma_term_monotonic(s: NodeView, inbound: Seq<(u64, MessageView)>)
    ensures
        spec_tick(s, inbound).0.current_term >= s.current_term,
{
    lemma_advance_time_monotonic(s);
    lemma_run_monotonic(spec_advance_time(s).0, inbound);
}

/// One handled message never changes a vote inside a term: the vote moves only
/// from none to some candidate, or together with a term change.
proof fn lemma_handle_vote(s: NodeView, from: u64, m: MessageView, v: u64)
    requires
        s.voted_for == Some(v),
    ensures
        spec_handle(s, from, m).0.current_term == s.current_term ==> spec_handle(
            s,
            from,
            m,
        ).0.voted_for == Some(v),
{
}

/// One unit of elapsed time never changes a vote inside a term.
proof fn lemma_advance_time_vote(s: NodeView, v: u64)
    requires
        s.voted_for == Some(v),
    ensures
        spec_advance_time(s).0.current_term == s.current_term ==> spec_advance_time(
            s,
        ).0.voted_for == Some(v),
{
}

/// A whole inbound batch never changes a vote inside a term.
proof fn lemma_run_vote(s: NodeView, inbound: Seq<(u64, MessageView)>, v: u64)
    requires
        s.voted_for == Some(v),
    ensures
        spec_run(s, inbound).0.current_term == s.current_term ==> spec_run(
            s,
            inbound,
        ).0.voted_for == Some(v),
    decreases inbound.len(),
{
    if inbound.len() > 0 {
        let s1 = spec_handle(s, inbound[0].0, inbound[0].1).0;
        lemma_handle_monotonic(s, inbound[0].0, inbound[0].1);
        lemma_run_monotonic(s1, inbound.skip(1));
        if spec_run(s, inbound).0.current_term == s.current_term {
            lemma_handle_vote(s, inbound[0].0, inbound[0].1, v);
            lemma_run_vote(s1, inbound.skip(1), v);
        }
    }
}

/// Vote monotonicity: within one term a node's vote is set at most once and
/// never changes once set — across a whole step, if the term comes out
/// unchanged, a vote that was set going in is the same coming out.
pub proof fn lemma_vote_monotonic(s: NodeView, inbound: Seq<(u64, MessageView)>, v: u64)
    requires
        s.voted_for == Some(v),
    ensures
        spec_tick(s, inbound).0.current_term == s.current_term ==> spec_tick(
            s,
            inbound,
        ).0.voted_for == Some(v),
{
    let s1 = spec_advance_time(s).0;
    lemma_advance_time_monotonic(s);
    lemma_run_monotonic(s1, inbound);
    if spec_tick(s, inbound).0.current_term == s.current_term {
        lemma_advance_time_vote(s, v);
        lemma_run_vote(s1, inbound, v);
    }
}

/// The Log Matching property between two logs: wherever both hold an entry of
/// the same term at the same index, they agree on that entry and on everything
/// before it.
pub open spec fn log_matching(la: Seq<LogEntry>, lb: Seq<LogEntry>) -> bool {
    forall|i: int|
        #![trigger la[i], lb[i]]
        0 <= i < la.len() && i < lb.len() && la[i].term == lb[i].term ==> la.take(i + 1) == lb.take(
            i + 1,
        )
}

/// Merging a leader's whole log suffix into a follower whose log already
/// agrees with the leader's up to the merge point leaves the follower holding
/// the leader's log as a prefix.
proof fn lemma_log_matching_merge(ll: Seq<LogEntry>, fl: Seq<LogEntry>, idx: int)
    requires
        1 <= idx <= ll.len(),
        idx <= fl.len(),
        log_matching(ll, fl),
        fl.take(idx) == ll.take(idx),
    ensures
        merge_log(fl, idx, ll.skip(idx)).take(ll.len() as int) == ll,
        merge_log(fl, idx, ll.skip(idx)).len() >= ll.len(),
    decreases ll.len() - idx,
{
    let entries = ll.skip(idx);
    if entries.len() == 0 {
        assert(ll.take(ll.len() as int) =~= ll);
        assert(fl.take(idx) =~= fl.take(ll.len() as int));
    } else {
        assert(entries[0] == ll[idx]);
        if idx < fl.len() && fl[idx].term == entries[0].term {
            let a = ll[idx];
            let b = fl[idx];
            assert(a.term == b.term);
            assert(fl.take(idx + 1) == ll.take(idx + 1));
            assert(entries.skip(1) =~= ll.skip(idx + 1));
            lemma_log_matching_merge(ll, fl, idx + 1);
        } else {
            assert(fl.take(idx) + entries =~= ll);
            assert(merge_log(fl, idx, entries) == fl.take(idx) + entries);
            assert((fl.take(idx) + entries).take(ll.len() as int) =~= ll);
        }
    }
}

/// Log Matching, preserved by replication: when a follower whose log satisfies
/// the Log Matching property with its leader's passes the AppendEntries
/// consistency check at `prev` (same term there as the leader), merging the
/// leader's entries from `prev + 1` leaves the follower holding the leader's
/// log as a prefix — so the two logs satisfy the property afterwards as well.
pub proof fn lemma_log_matching_preserved(ll: Seq<LogEntry>, fl: Seq<LogEntry>, prev: int)
    requires
        0 <= prev < ll.len(),
        prev < fl.len(),
        log_matching(ll, fl),
        fl[prev].term == ll[prev].term,
    ensures
        merge_log(fl, prev + 1, ll.skip(prev + 1)).take(ll.len() as int) == ll,
        log_matching(ll, merge_log(fl, prev + 1, ll.skip(prev + 1))),
{
    let a = ll[prev];
    let b = fl[prev];
    assert(a.term == b.term);
    assert(fl.take(prev + 1) == ll.take(prev + 1));
    lemma_log_matching_merge(ll, fl, prev + 1);
    let m = merge_log(fl, prev + 1, ll.skip(prev + 1));
    assert forall|i: int|
        0 <= i < ll.len() && i < m.len() && (#[trigger] ll[i]).term == (#[trigger] m[i]).term
        implies ll.take(i + 1) == m.take(i + 1) by {
        assert forall|k: int| 0 <= k < i + 1 implies #[trigger] ll.take(i + 1)[k] == m.take(
            i + 1,
        )[k] by {
            assert(m.take(ll.len() as int)[k] == m[k]);
            assert(ll[k] == m[k]);
        }
        assert(ll.take(i + 1) =~= m.take(i + 1));
    }
}

} // verus!
