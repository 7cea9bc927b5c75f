//! The incremental walk as a sequence of steps over a queue.

use vstd::prelude::*;
use crate::graph::Graph;

verus! {

/// The state of an incremental walk.
pub struct Walk {
    /// The nodes that wait to be looked at, the next one first.
    pub queue: Seq<int>,
    /// The nodes visited so far, in the order of the visits.
    pub visited: Seq<int>,
}

impl Graph {
    /// Whether every node that `node` depends on directly is among `visited`.
    pub open spec fn is_ready(self, node: int, visited: Seq<int>) -> bool {
        forall|a: int| #[trigger] self.has_edge(a, node) ==> visited.contains(a)
    }

    /// The walk before its first step: nothing is visited, and every node is
    /// queued once, the one created last in front.
    pub open spec fn walk_start(self) -> Walk {
        Walk {
            queue: Seq::new(self.names.len(), |i: int| self.names.len() - 1 - i),
            visited: Seq::empty(),
        }
    }

    /// One step of the walk. The node in front leaves the queue. If it was
    /// visited before, or depends directly on a node that was not, nothing
    /// else happens. Otherwise it is visited, and its dependents join the
    /// queue at the back. With an empty queue the walk stands still.
    pub open spec fn walk_step(self, walk: Walk) -> Walk {
        if walk.queue.len() == 0 {
            walk
        } else {
            let node = walk.queue.first();
            let rest = walk.queue.drop_first();
            if walk.visited.contains(node) || !self.is_ready(node, walk.visited) {
                Walk { queue: rest, visited: walk.visited }
            } else {
                Walk { queue: rest + self.children[node], visited: walk.visited.push(node) }
            }
        }
    }

    /// The walk after a number of steps.
    pub open spec fn walk_after(self, steps: nat) -> Walk
        decreases steps,
    {
        if steps == 0 {
            self.walk_start()
        } else {
            self.walk_step(self.walk_after((steps - 1) as nat))
        }
    }

    /// Whether `visited` names the nodes in the order in which the
    /// incremental walk visits them: the walk has come to an empty queue with
    /// these visits.
    pub open spec fn is_walk_order(self, visited: Seq<Seq<char>>) -> bool {
        exists|steps: nat|
            (#[trigger] self.walk_after(steps)).queue.len() == 0 && self.names_along(
                self.walk_after(steps).visited,
            ) == visited
    }

    /// Once its queue is empty the walk stands still.
    pub proof fn lemma_walk_rests(self, ended: nat, later: nat)
        requires
            self.walk_after(ended).queue.len() == 0,
            ended <= later,
        ensures
            self.walk_after(later) == self.walk_after(ended),
        decreases later,
    {
        if ended < later {
            self.lemma_walk_rests(ended, (later - 1) as nat);
        }
    }

    /// The incremental walk has one order only.
    pub proof fn lemma_walk_order_unique(self, one: Seq<Seq<char>>, other: Seq<Seq<char>>)
        requires
            self.is_walk_order(one),
            self.is_walk_order(other),
        ensures
            one == other,
    {
        let a = choose|steps: nat|
            (#[trigger] self.walk_after(steps)).queue.len() == 0 && self.names_along(
                self.walk_after(steps).visited,
            ) == one;
        let b = choose|steps: nat|
            (#[trigger] self.walk_after(steps)).queue.len() == 0 && self.names_along(
                self.walk_after(steps).visited,
            ) == other;
        if a <= b {
            self.lemma_walk_rests(a, b);
        } else {
            self.lemma_walk_rests(b, a);
        }
    }
}

} // verus!
