//! Orphan pruning: nodes that the walk from the root never reaches leave the
//! graph.

use crate::assoc::keys_of;
use crate::lock::LockFile;
use crate::model::{GraphError, GraphView, NodeView};
use crate::names::names_of;
use crate::visits::{bump, visit, zero_tally, FlakeNodeVisits};
use vstd::multiset::Multiset;
use vstd::prelude::*;

verus! {

/// The test that a node passes when the walk `steps` stepped on it.
pub open spec fn reached(steps: Multiset<Seq<char>>) -> spec_fn(
    (Seq<char>, NodeView),
) -> bool {
    |n: (Seq<char>, NodeView)| steps.count(n.0) > 0
}

/// The test that a node passes when the walk `steps` never stepped on it.
pub open spec fn orphaned(steps: Multiset<Seq<char>>) -> spec_fn(
    (Seq<char>, NodeView),
) -> bool {
    |n: (Seq<char>, NodeView)| steps.count(n.0) == 0
}

/// The graph without its orphans: the nodes that the walk from the root
/// steps on, in their order. The walk's failure is the pruning's.
pub open spec fn pruned(g: GraphView) -> Result<GraphView, GraphError> {
    match visit(g, g.root, Seq::empty()) {
        Ok(steps) => Ok(GraphView { nodes: g.nodes.filter(reached(steps)), ..g }),
        Err(e) => Err(e),
    }
}

/// The identifiers of the orphans of `g`, in the graph's order.
pub open spec fn orphans(g: GraphView) -> Result<Seq<Seq<char>>, GraphError> {
    match visit(g, g.root, Seq::empty()) {
        Ok(steps) => Ok(keys_of(g.nodes.filter(orphaned(steps)))),
        Err(e) => Err(e),
    }
}

/// Removes every node that the walk from the root does not reach, and
/// returns the identifiers removed, in the graph's order. Where the walk
/// fails, its error comes back and the graph is left as it was.
pub fn prune_orphan_nodes(lock: &mut LockFile) -> (r: Result<Vec<String>, GraphError>)
    requires
        old(lock).wf(),
    ensures
        final(lock).wf(),
        match r {
            Ok(removed) => {
                &&& pruned(old(lock)@) == Ok::<GraphView, GraphError>(final(lock)@)
                &&& orphans(old(lock)@) == Ok::<Seq<Seq<char>>, GraphError>(names_of(removed@))
            },
            Err(e) => {
                &&& pruned(old(lock)@) == Err::<GraphView, GraphError>(e)
                &&& final(lock)@ == old(lock)@
            },
        },
{
    let ghost g = lock@;
    let root = lock.root_index().clone();
    let tally = match FlakeNodeVisits::count_from_index(lock, root.as_str()) {
        Ok(tally) => tally,
        Err(e) => {
            return Err(e);
        },
    };
    let ghost steps = visit(g, g.root, Seq::empty())->Ok_0;
    let mut removed: Vec<String> = Vec::new();
    let n = tally.len();
    let mut i: usize = 0;
    proof {
        lock.lemma_wf();
        assert(tally@ == bump(zero_tally(g), steps));
        assert(steps.count(g.root) > 0);
        assert(g.nodes.take(0) =~= Seq::empty());
        assert(g.nodes.skip(0) =~= g.nodes);
        reveal(Seq::filter);
        assert(g.nodes.take(0).filter(reached(steps)) + g.nodes.skip(0) =~= g.nodes);
        assert(names_of(removed@) =~= keys_of(g.nodes.take(0).filter(orphaned(steps))));
    }
    while i < n
        invariant
            lock.wf(),
            g.wf(),
            tally.wf(),
            tally@ == bump(zero_tally(g), steps),
            n == g.nodes.len(),
            i <= n,
            steps.count(g.root) > 0,
            lock@.root == g.root,
            lock@.version == g.version,
            lock@.nodes == g.nodes.take(i as int).filter(reached(steps)) + g.nodes.skip(i as int),
            names_of(removed@) == keys_of(g.nodes.take(i as int).filter(orphaned(steps))),
        decreases n - i,
    {
        let ghost kept = g.nodes.take(i as int).filter(reached(steps));
        let ghost gone = g.nodes.take(i as int).filter(orphaned(steps));
        let ghost here = g.nodes[i as int];
        proof {
            g.nodes.take(i as int).lemma_filter_push(here, reached(steps));
            g.nodes.take(i as int).lemma_filter_push(here, orphaned(steps));
            g.nodes.lemma_take_succ_push(i as int);
            assert(tally@[i as int] == bump(zero_tally(g), steps)[i as int]);
            assert(lock@.nodes[kept.len() as int] == here);
        }
        if tally.count_at(i) == 0 {
            let id = tally.index_at(i).clone();
            proof {
                lock.lemma_wf();
                crate::assoc::lemma_key_at(lock@.nodes, kept.len() as int);
            }
            lock.remove_node(id.as_str());
            let ghost prev = removed@;
            removed.push(id);
            proof {
                assert(lock@.nodes =~= kept + g.nodes.skip(i as int + 1));
                assert(names_of(prev).len() == gone.len());
                assert forall|j: int| 0 <= j < gone.len() implies names_of(removed@)[j] == keys_of(
                    gone.push(here),
                )[j] by {
                    assert(names_of(prev)[j] == keys_of(gone)[j]);
                }
                assert(names_of(removed@) =~= keys_of(gone.push(here)));
            }
        } else {
            proof {
                assert(lock@.nodes =~= kept.push(here) + g.nodes.skip(i as int + 1));
            }
        }
        i += 1;
    }
    proof {
        assert(g.nodes.take(n as int) =~= g.nodes);
        assert(g.nodes.skip(n as int) =~= Seq::empty());
        assert(lock@.nodes =~= g.nodes.filter(reached(steps)));
    }
    Ok(removed)
}

} // verus!
