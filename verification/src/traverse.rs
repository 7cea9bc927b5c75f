//! Visiting every node of the graph once, dependencies first.

use std::collections::VecDeque;
use vstd::prelude::*;
use crate::dag::UniqueDag;
use crate::error::PlanError;
use crate::graph::{indices, lemma_distinct_bounded, lemma_indices_push, lemma_push_contains};
use crate::walk::Walk;
use crate::syntax::{names_of, lemma_names_of_push};

verus! {

/// The nodes that a list of marks holds as complete.
pub open spec fn marked_set(complete: Seq<bool>) -> Set<int> {
    Set::new(|x: int| 0 <= x < complete.len() && complete[x])
}

/// A list of `n` marks, none of them set.
fn unmarked(n: usize) -> (marks: Vec<bool>)
    ensures
        marks.len() == n,
        forall|x: int| 0 <= x < n ==> !marks@[x],
{
    let mut marks: Vec<bool> = Vec::new();
    let mut i: usize = 0;
    while i < n
        invariant
            i <= n,
            marks.len() == i,
            forall|x: int| 0 <= x < i ==> !marks@[x],
        decreases n - i,
    {
        marks.push(false);
        i = i + 1;
    }
    marks
}

impl UniqueDag {
    /// Whether every node that `node` depends on directly is marked complete.
    fn is_ready(&self, node: usize, complete: &Vec<bool>) -> (ready: bool)
        requires
            self.wf(),
            node < self@.len(),
            complete.len() == self@.len(),
        ensures
            ready <==> forall|a: int| #[trigger] self@.has_edge(a, node as int) ==> complete@[a],
    {
        proof {
            self.lemma_wf();
        }
        let parents = self.parents(node);
        let mut k: usize = 0;
        while k < parents.len()
            invariant
                k <= parents.len(),
                complete.len() == self@.len(),
                forall|j: int|
                    0 <= j < parents.len() ==> (#[trigger] parents@[j]) < self@.len()
                        && self@.has_edge(parents@[j] as int, node as int),
                forall|j: int| 0 <= j < k ==> complete@[(#[trigger] parents@[j]) as int],
            decreases parents.len() - k,
        {
            if !complete[parents[k]] {
                proof {
                    assert(self@.has_edge(parents@[k as int] as int, node as int));
                }
                return false;
            }
            k = k + 1;
        }
        proof {
            assert forall|a: int| #[trigger] self@.has_edge(a, node as int) implies
                complete@[a] by {
                assert(self@.has_index(a));
                let j = choose|j: int| 0 <= j < parents.len() && parents@[j] == a as usize;
                assert(complete@[parents@[j] as int]);
            }
        }
        true
    }

    /// The names of the nodes that `order` lists by index.
    fn names_in_order(&self, order: &Vec<usize>) -> (names: Vec<String>)
        requires
            self.wf(),
            forall|p: int| 0 <= p < order.len() ==> (#[trigger] order@[p]) < self@.len(),
        ensures
            names_of(names@) == self@.names_along(indices(order@)),
    {
        let mut names: Vec<String> = Vec::new();
        let mut i: usize = 0;
        proof {
            assert(names_of(names@) =~= self@.names_along(indices(order@).take(0)));
        }
        while i < order.len()
            invariant
                self.wf(),
                i <= order.len(),
                forall|p: int| 0 <= p < order.len() ==> (#[trigger] order@[p]) < self@.len(),
                names_of(names@) == self@.names_along(indices(order@).take(i as int)),
            decreases order.len() - i,
        {
            let name = self.name(order[i]).clone();
            proof {
                lemma_names_of_push(names@, name);
                assert(self@.names_along(indices(order@).take(i + 1)) =~= self@.names_along(
                    indices(order@).take(i as int),
                ).push(name@));
            }
            names.push(name);
            i = i + 1;
        }
        proof {
            assert(indices(order@).take(order.len() as int) =~= indices(order@));
        }
        names
    }

    /// Visits every node once, each after all the nodes that it depends on:
    /// calls `visit` with the name of each node in turn, and returns the names
    /// in the order of the visits.
    ///
    /// The walk is driven by readiness. Every node is queued once, the one
    /// created last in front. A node taken from the queue is visited if all
    /// the nodes that it depends on directly have been visited; its dependents
    /// are then queued again. A node that is not ready is dropped from the
    /// queue, and comes back as a dependent of the node that it waits for.
    /// A name that is referenced but never declared has a node without
    /// dependencies, and is visited like any other.
    pub fn incremental_walk<F: Fn(&String)>(&self, visit: F) -> (visited: Vec<String>)
        requires
            self.wf(),
            forall|name: &String| self@.has_node(name@) ==> call_requires(visit, (name,)),
        ensures
            self@.is_dependency_order(names_of(visited@)),
            self@.is_walk_order(names_of(visited@)),
            forall|i: int| 0 <= i < visited.len() ==> call_ensures(visit, (&visited@[i],), ()),
    {
        let n = self.len();
        let mut complete = unmarked(n);
        let mut queue: VecDeque<usize> = VecDeque::new();
        let mut i: usize = n;
        while i > 0
            invariant
                i <= n,
                queue.len() == n - i,
                forall|k: int| 0 <= k < queue.len() ==> (#[trigger] queue@[k]) == n - 1 - k,
                forall|x: usize| i <= x < n ==> queue@.contains(x),
            decreases i,
        {
            i = i - 1;
            proof {
                assert forall|x: usize| i <= x < n implies queue@.push(i).contains(x) by {
                    lemma_push_contains(queue@, i, x);
                }
            }
            queue.push_back(i);
        }
        let mut visited: Vec<String> = Vec::new();
        let ghost mut listed: Seq<int> = Seq::empty();
        let ghost mut steps: nat = 0;
        proof {
            self.lemma_wf();
            assert(names_of(visited@) =~= self@.names_along(listed));
            assert(indices(queue@) =~= self@.walk_start().queue);
        }
        while queue.len() > 0
            invariant
                self.wf(),
                self@.well_formed(),
                n == self@.len(),
                complete.len() == n,
                forall|name: &String| self@.has_node(name@) ==> call_requires(visit, (name,)),
                forall|i: int|
                    0 <= i < visited.len() ==> call_ensures(visit, (&visited@[i],), ()),
                listed.len() == visited.len(),
                names_of(visited@) == self@.names_along(listed),
                self@.is_visit_prefix(listed),
                forall|x: int| 0 <= x < n ==> (complete@[x] <==> listed.contains(x)),
                forall|k: int| 0 <= k < queue.len() ==> (#[trigger] queue@[k]) < n,
                forall|x: int|
                    0 <= x < n && !(#[trigger] complete@[x]) ==> queue@.contains(x as usize)
                        || exists|a: int| #[trigger] self@.has_edge(a, x) && !complete@[a],
                self@.walk_after(steps) == (Walk { queue: indices(queue@), visited: listed }),
            decreases n - visited.len(), queue.len(),
        {
            proof {
                lemma_distinct_bounded(listed, n as int);
            }
            let ghost queue_before = queue@;
            let ghost complete_before = complete@;
            let ghost walk_before = self@.walk_after(steps);
            let u = queue.pop_front().unwrap();
            proof {
                steps = steps + 1;
                assert(walk_before.queue.first() == u as int);
                assert(indices(queue@) =~= walk_before.queue.drop_first());
                assert(walk_before.visited.contains(u as int) <==> complete@[u as int]);
                assert(self@.is_ready(u as int, listed) <==> (forall|a: int| #[trigger]
                    self@.has_edge(a, u as int) ==> complete@[a])) by {
                    assert forall|a: int| #[trigger] self@.has_edge(a, u as int) implies (
                    listed.contains(a) <==> complete@[a]) by {
                        assert(self@.has_index(a));
                    }
                }
                assert forall|x: usize| x != u && queue_before.contains(x) implies queue@.contains(
                    x,
                ) by {
                    let j = choose|j: int| 0 <= j < queue_before.len() && queue_before[j] == x;
                    assert(queue@[j - 1] == x);
                }
            }
            if !complete[u] && self.is_ready(u, &complete) {
                let name = self.name(u);
                proof {
                    assert(self@.has_node(name@)) by {
                        assert(self@.names[u as int] == name@);
                    }
                    assert(!listed.contains(u as int));
                    assert forall|a: int| #[trigger]
                        self@.has_edge(a, u as int) implies exists|q: int|
                        0 <= q < listed.len() && listed[q] == a by {
                        assert(self@.has_index(a));
                        assert(complete@[a]);
                        assert(listed.contains(a));
                    }
                    let longer = listed.push(u as int);
                    assert forall|p: int, a: int|
                        0 <= p < longer.len() && #[trigger] self@.has_edge(
                            a,
                            longer[p],
                        ) implies exists|q: int| 0 <= q < p && longer[q] == a by {
                        if p < listed.len() {
                            assert(self@.has_edge(a, listed[p]));
                            let q = choose|q: int| 0 <= q < p && listed[q] == a;
                            assert(longer[q] == a);
                        } else {
                            let q = choose|q: int| 0 <= q < listed.len() && listed[q] == a;
                            assert(longer[q] == a);
                        }
                    }
                    assert(self@.is_visit_prefix(longer));
                    lemma_distinct_bounded(longer, n as int);
                    assert forall|x: int| 0 <= x < n implies (complete@.update(u as int, true)[x]
                        <==> longer.contains(x)) by {
                        lemma_push_contains(listed, u as int, x);
                    }
                    lemma_names_of_push(visited@, *name);
                    assert(self@.names_along(longer) =~= self@.names_along(listed).push(name@));
                    listed = longer;
                }
                visit(name);
                visited.push(name.clone());
                complete.set(u, true);
                let kids = self.children(u);
                let mut k: usize = 0;
                let ghost rest = indices(queue@);
                proof {
                    assert(indices(kids@).take(0) =~= Seq::<int>::empty());
                    assert(rest + Seq::<int>::empty() =~= rest);
                }
                while k < kids.len()
                    invariant
                        k <= kids.len(),
                        indices(queue@) == rest + indices(kids@).take(k as int),
                        n == self@.len(),
                        u < n,
                        complete.len() == n,
                        complete@ == complete_before.update(u as int, true),
                        forall|j: int|
                            0 <= j < kids.len() ==> (#[trigger] kids@[j]) < self@.len(),
                        forall|j: int| 0 <= j < queue.len() ==> (#[trigger] queue@[j]) < n,
                        forall|j: int| 0 <= j < k ==> queue@.contains(#[trigger] kids@[j]),
                        forall|x: usize|
                            x != u && queue_before.contains(x) ==> queue@.contains(x),
                    decreases kids.len() - k,
                {
                    let ghost queue_inner = queue@;
                    queue.push_back(kids[k]);
                    proof {
                        lemma_indices_push(queue_inner, kids@[k as int]);
                        assert(indices(kids@).take(k + 1) =~= indices(kids@).take(k as int).push(
                            kids@[k as int] as int,
                        ));
                        assert(rest + indices(kids@).take(k + 1) =~= (rest + indices(kids@).take(
                            k as int,
                        )).push(kids@[k as int] as int));
                        assert forall|j: int| 0 <= j <= k implies queue@.contains(
                            #[trigger] kids@[j],
                        ) by {
                            lemma_push_contains(queue_inner, kids@[k as int], kids@[j]);
                        }
                        assert forall|x: usize|
                            x != u && queue_before.contains(x) implies queue@.contains(x) by {
                            lemma_push_contains(queue_inner, kids@[k as int], x);
                        }
                    }
                    k = k + 1;
                }
                proof {
                    assert(indices(kids@).take(kids.len() as int) =~= indices(kids@));
                    assert forall|x: int|
                        0 <= x < n && !(#[trigger] complete@[x]) implies queue@.contains(
                        x as usize,
                    ) || exists|a: int| #[trigger] self@.has_edge(a, x) && !complete@[a] by {
                        assert(!complete_before[x]);
                        if !queue_before.contains(x as usize) {
                            let a = choose|a: int| #[trigger]
                                self@.has_edge(a, x) && !complete_before[a];
                            if a == u {
                                let j = choose|j: int|
                                    0 <= j < kids.len() && kids@[j] == x as usize;
                                assert(queue@.contains(kids@[j]));
                            } else {
                                assert(self@.has_edge(a, x) && !complete@[a]);
                            }
                        }
                    }
                }
            } else {
                proof {
                    assert forall|x: int|
                        0 <= x < n && !(#[trigger] complete@[x]) implies queue@.contains(
                        x as usize,
                    ) || exists|a: int| #[trigger] self@.has_edge(a, x) && !complete@[a] by {
                        if x == u {
                            let a = choose|a: int| #[trigger]
                                self@.has_edge(a, u as int) && !complete@[a];
                            assert(self@.has_edge(a, x) && !complete@[a]);
                        }
                    }
                }
            }
        }
        proof {
            let done = marked_set(complete@);
            assert(self@.starved(done)) by {
                assert forall|x: int| self@.has_index(x) && !done.contains(x) implies exists|a: int|
                 #[trigger] self@.has_edge(a, x) && !done.contains(a) by {
                    assert(!complete@[x]);
                    assert(!queue@.contains(x as usize));
                    let a = choose|a: int| #[trigger] self@.has_edge(a, x) && !complete@[a];
                    assert(self@.has_edge(a, x) && !done.contains(a));
                }
            }
            assert forall|x: int| self@.has_index(x) implies listed.contains(x) by {
                self@.lemma_no_starvation(done, x);
            }
            self@.lemma_names_along_order(listed);
            assert(self@.walk_after(steps).queue.len() == 0);
        }
        visited
    }

    /// The names of all nodes in one fixed order in which every node comes
    /// after all the nodes that it depends on.
    ///
    /// The order is built in passes over the nodes in creation order; a pass
    /// takes every node that is ready. A pass that takes none while nodes are
    /// left would mean a cycle, and ends with `PlanError::Cycle`: a safeguard,
    /// which a graph that meets its invariant never reaches.
    pub fn topological_order(&self) -> (r: Result<Vec<String>, PlanError>)
        requires
            self.wf(),
        ensures
            r matches Ok(visited) && self@.is_dependency_order(names_of(visited@)),
    {
        let n = self.len();
        let mut complete = unmarked(n);
        let mut order: Vec<usize> = Vec::new();
        let ghost mut listed: Seq<int> = Seq::empty();
        proof {
            self.lemma_wf();
        }
        while order.len() < n
            invariant
                self.wf(),
                self@.well_formed(),
                self@.ranked(),
                n == self@.len(),
                complete.len() == n,
                order.len() <= n,
                listed.len() == order.len(),
                forall|p: int| 0 <= p < order.len() ==> (#[trigger] order@[p]) == listed[p],
                self@.is_visit_prefix(listed),
                forall|x: int| 0 <= x < n ==> (complete@[x] <==> listed.contains(x)),
            decreases n - order.len(),
        {
            let taken = order.len();
            let mut x: usize = 0;
            while x < n
                invariant
                    self.wf(),
                    self@.well_formed(),
                    n == self@.len(),
                    x <= n,
                    complete.len() == n,
                    taken <= order.len() <= n,
                    listed.len() == order.len(),
                    forall|p: int| 0 <= p < order.len() ==> (#[trigger] order@[p]) == listed[p],
                    self@.is_visit_prefix(listed),
                    forall|y: int| 0 <= y < n ==> (complete@[y] <==> listed.contains(y)),
                    order.len() == taken ==> forall|y: int|
                        0 <= y < x && !(#[trigger] complete@[y]) ==> exists|a: int| #[trigger]
                            self@.has_edge(a, y) && !complete@[a],
                decreases n - x,
            {
                if !complete[x] && self.is_ready(x, &complete) {
                    proof {
                        assert(!listed.contains(x as int));
                        assert forall|a: int| #[trigger]
                            self@.has_edge(a, x as int) implies exists|q: int|
                            0 <= q < listed.len() && listed[q] == a by {
                            assert(self@.has_index(a));
                            assert(complete@[a]);
                            assert(listed.contains(a));
                        }
                        let longer = listed.push(x as int);
                        assert forall|p: int, a: int|
                            0 <= p < longer.len() && #[trigger] self@.has_edge(
                                a,
                                longer[p],
                            ) implies exists|q: int| 0 <= q < p && longer[q] == a by {
                            if p < listed.len() {
                                assert(self@.has_edge(a, listed[p]));
                                let q = choose|q: int| 0 <= q < p && listed[q] == a;
                                assert(longer[q] == a);
                            } else {
                                let q = choose|q: int| 0 <= q < listed.len() && listed[q] == a;
                                assert(longer[q] == a);
                            }
                        }
                        assert(self@.is_visit_prefix(longer));
                        lemma_distinct_bounded(longer, n as int);
                        assert forall|y: int| 0 <= y < n implies (complete@.update(
                            x as int,
                            true,
                        )[y] <==> longer.contains(y)) by {
                            lemma_push_contains(listed, x as int, y);
                        }
                        listed = longer;
                    }
                    order.push(x);
                    complete.set(x, true);
                }
                x = x + 1;
            }
            proof {
                // A pass over an unfinished graph takes a node: otherwise every
                // node that is left would wait for another one that is left.
                assert(order.len() > taken) by {
                    if order.len() == taken {
                        let done = marked_set(complete@);
                        assert(self@.starved(done)) by {
                            assert forall|y: int|
                                self@.has_index(y) && !done.contains(y) implies exists|a: int|
                             #[trigger] self@.has_edge(a, y) && !done.contains(a) by {
                                assert(!complete@[y]);
                                let a = choose|a: int| #[trigger]
                                    self@.has_edge(a, y) && !complete@[a];
                                assert(self@.has_edge(a, y) && !done.contains(a));
                            }
                        }
                        assert forall|y: int| 0 <= y < n implies listed.contains(y) by {
                            self@.lemma_no_starvation(done, y);
                        }
                        lemma_distinct_bounded(listed, n as int);
                    }
                }
            }
            if order.len() == taken {
                return Err(PlanError::Cycle);
            }
        }
        proof {
            lemma_distinct_bounded(listed, n as int);
            self@.lemma_names_along_order(listed);
            assert(listed =~= indices(order@));
        }
        Ok(self.names_in_order(&order))
    }

    /// The names of all nodes, each after all the nodes that it depends on, in
    /// the order that `strategy` produces.
    pub fn traverse(&self, strategy: Strategy) -> (r: Result<Vec<String>, PlanError>)
        requires
            self.wf(),
        ensures
            r matches Ok(visited) && self@.is_dependency_order(names_of(visited@)) && (strategy
                == Strategy::Incremental ==> self@.is_walk_order(names_of(visited@))),
    {
        match strategy {
            Strategy::Static => self.topological_order(),
            Strategy::Incremental => Ok(self.incremental_walk(|_name: &String| {})),
        }
    }
}

/// How the nodes of a graph are put in order.
#[derive(Debug, Clone, Copy, PartialEq, Eq)]
pub enum Strategy {
    /// One order, computed in full before the first visit.
    Static,
    /// A queue of nodes that are visited as they become ready.
    Incremental,
}

impl Default for Strategy {
    /// The incremental walk.
    fn default() -> (strategy: Strategy)
        ensures
            strategy == Strategy::Incremental,
    {
        Strategy::Incremental
    }
}

} // verus!
