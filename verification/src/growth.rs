//! How the graph grows: what insertion keeps, and when it is refused.

use vstd::prelude::*;
use crate::graph::Graph;

verus! {

impl Graph {
    /// Whether `later` holds every node of `self` under the same index, and
    /// every edge of `self`.
    pub open spec fn extends_to(self, later: Graph) -> bool {
        &&& self.names.len() <= later.names.len()
        &&& forall|i: int| 0 <= i < self.names.len() ==> later.names[i] == self.names[i]
        &&& forall|a: int, b: int| #[trigger] self.has_edge(a, b) ==> later.has_edge(a, b)
    }

    /// A node keeps its index as the graph grows.
    pub proof fn lemma_index_kept(self, later: Graph, name: Seq<char>)
        requires
            later.well_formed(),
            self.extends_to(later),
            self.has_node(name),
        ensures
            later.has_node(name),
            later.index_of(name) == self.index_of(name),
    {
        self.lemma_index_of_name(name);
        let i = self.index_of(name);
        assert(later.names[i] == name);
        later.lemma_index_of(i);
    }

    /// What a node reaches, it still reaches as the graph grows.
    pub proof fn lemma_reaches_kept(self, later: Graph, from: int, to: int)
        requires
            self.extends_to(later),
            self.reaches(from, to),
        ensures
            later.reaches(from, to),
    {
        let path = choose|path: Seq<int>| #[trigger]
            self.is_path(path) && path.first() == from && path.last() == to;
        assert(later.is_path(path));
    }

    /// Growth goes on: what extends an extension extends the graph.
    pub proof fn lemma_extends_further(self, middle: Graph, later: Graph)
        requires
            self.extends_to(middle),
            middle.extends_to(later),
        ensures
            self.extends_to(later),
    {
    }

    /// Asking for a node keeps the graph well-formed and all that it holds,
    /// and the node is there afterwards. Asking again changes nothing.
    pub proof fn lemma_with_node(self, name: Seq<char>)
        requires
            self.well_formed(),
        ensures
            self.with_node(name).well_formed(),
            self.extends_to(self.with_node(name)),
            self.with_node(name).has_node(name),
            self.with_node(name).has_index(self.with_node(name).index_of(name)),
            self.with_node(name).with_node(name) == self.with_node(name),
            self.with_node(name).len() == if self.has_node(name) {
                self.len()
            } else {
                self.len() + 1
            },
            self.ranked() ==> self.with_node(name).ranked(),
    {
        let grown = self.with_node(name);
        if !self.has_node(name) {
            assert(grown.names[self.names.len() as int] == name);
            assert forall|a: int, b: int| #[trigger] grown.has_edge(a, b) implies self.has_edge(
                a,
                b,
            ) by {
                if a == self.children.len() {
                    assert(grown.children[a] =~= Seq::<int>::empty());
                }
            }
            assert forall|a: int, b: int| #[trigger] grown.has_edge(a, b) implies grown.has_index(
                a,
            ) && grown.has_index(b) by {
                assert(self.has_edge(a, b));
            }
            if self.ranked() {
                let rank = choose|rank: Seq<int>| self.ranked_by(rank);
                assert forall|a: int, b: int| #[trigger] grown.has_edge(a, b) implies rank.push(
                    0,
                )[a] < rank.push(0)[b] by {
                    assert(self.has_edge(a, b));
                }
                assert(grown.ranked_by(rank.push(0)));
            }
        }
        grown.lemma_index_of_name(name);
    }

    /// An edge that closes no cycle leaves the nodes rankable: the target and
    /// all that it reaches are lifted above the source.
    proof fn lemma_edge_keeps_ranking(self, from: int, to: int)
        requires
            self.well_formed(),
            self.ranked(),
            self.has_index(from),
            self.has_index(to),
            !self.reaches(to, from),
        ensures
            self.with_edge(from, to).ranked(),
    {
        let grown = self.with_edge(from, to);
        let rank = choose|rank: Seq<int>| self.ranked_by(rank);
        let shift = if rank[from] >= rank[to] {
            rank[from] - rank[to] + 1
        } else {
            0
        };
        let lifted = Seq::new(
            self.names.len(),
            |x: int|
                if self.reaches(to, x) {
                    rank[x] + shift
                } else {
                    rank[x]
                },
        );
        self.lemma_reaches_self(to);
        assert forall|a: int, b: int| #[trigger] grown.has_edge(a, b) implies lifted[a]
            < lifted[b] by {
            self.lemma_with_edge_edges(from, to, a, b);
            if !(a == from && b == to) {
                assert(self.has_edge(a, b));
                assert(self.has_index(a) && self.has_index(b));
                if self.reaches(to, a) {
                    self.lemma_reaches_step(to, a, b);
                }
            }
        }
        assert(grown.ranked_by(lifted));
    }

    /// Asking twice for the node of a name gives the same index both times,
    /// and the node is created at most once.
    pub proof fn lemma_node_asked_twice(self, name: Seq<char>)
        requires
            self.well_formed(),
        ensures
            self.with_node(name).with_node(name) == self.with_node(name),
            self.with_node(name).with_node(name).index_of(name) == self.with_node(name).index_of(
                name,
            ),
            self.with_node(name).with_node(name).len() <= self.len() + 1,
    {
        self.lemma_with_node(name);
    }

    /// An edge between two nodes keeps the graph well-formed and all that it
    /// holds.
    pub proof fn lemma_with_edge(self, from: int, to: int)
        requires
            self.well_formed(),
            self.has_index(from),
            self.has_index(to),
        ensures
            self.with_edge(from, to).well_formed(),
            self.extends_to(self.with_edge(from, to)),
            self.with_edge(from, to).has_edge(from, to),
            self.ranked() && !self.reaches(to, from) ==> self.with_edge(from, to).ranked(),
    {
        let grown = self.with_edge(from, to);
        assert forall|a: int, b: int| #[trigger] grown.has_edge(a, b) implies grown.has_index(a)
            && grown.has_index(b) by {
            self.lemma_with_edge_edges(from, to, a, b);
            if !(a == from && b == to) {
                assert(self.has_edge(a, b));
            }
        }
        assert forall|a: int, b: int| #[trigger] self.has_edge(a, b) implies grown.has_edge(
            a,
            b,
        ) by {
            self.lemma_with_edge_edges(from, to, a, b);
        }
        self.lemma_with_edge_edges(from, to, from, to);
        if !self.has_edge(from, to) {
            assert forall|a: int| 0 <= a < grown.children.len() implies (
            #[trigger] grown.children[a]).no_duplicates() by {
                assert(self.children[a].no_duplicates());
            }
        }
        if self.ranked() && !self.reaches(to, from) {
            self.lemma_edge_keeps_ranking(from, to);
        }
    }

    /// A dependency, accepted or refused, keeps the graph well-formed and all
    /// that it holds; the dependency has a node afterwards, and where it was
    /// accepted, the edge to the target.
    pub proof fn lemma_with_dependency(self, target: int, dependency: Seq<char>)
        requires
            self.well_formed(),
            self.has_index(target),
        ensures
            self.with_dependency(target, dependency).0.well_formed(),
            self.extends_to(self.with_dependency(target, dependency).0),
            self.with_dependency(target, dependency).0.has_node(dependency),
            self.ranked() ==> self.with_dependency(target, dependency).0.ranked(),
            self.with_dependency(target, dependency).1 ==> self.with_dependency(
                target,
                dependency,
            ).0.has_edge(self.with_dependency(target, dependency).0.index_of(dependency), target),
    {
        let grown = self.with_node(dependency);
        self.lemma_with_node(dependency);
        let source = grown.index_of(dependency);
        if !grown.reaches(target, source) {
            grown.lemma_with_edge(source, target);
            self.lemma_extends_further(grown, grown.with_edge(source, target));
            grown.lemma_index_kept(grown.with_edge(source, target), dependency);
        }
    }

    /// A list of dependencies, accepted or refused, keeps the graph
    /// well-formed and all that it holds. Where all were accepted, each has an
    /// edge to the target.
    pub proof fn lemma_with_dependencies(self, target: int, dependencies: Seq<Seq<char>>)
        requires
            self.well_formed(),
            self.has_index(target),
        ensures
            self.with_dependencies(target, dependencies).0.well_formed(),
            self.extends_to(self.with_dependencies(target, dependencies).0),
            self.ranked() ==> self.with_dependencies(target, dependencies).0.ranked(),
            self.with_dependencies(target, dependencies).1 ==> forall|k: int|
                0 <= k < dependencies.len() ==> {
                    let after = self.with_dependencies(target, dependencies).0;
                    after.has_node(#[trigger] dependencies[k]) && after.has_edge(
                        after.index_of(dependencies[k]),
                        target,
                    )
                },
        decreases dependencies.len(),
    {
        if dependencies.len() > 0 {
            let front = dependencies.drop_last();
            self.lemma_with_dependencies(target, front);
            let (graph, ok) = self.with_dependencies(target, front);
            if ok {
                graph.lemma_with_dependency(target, dependencies.last());
                let after = graph.with_dependency(target, dependencies.last()).0;
                self.lemma_extends_further(graph, after);
                if graph.with_dependency(target, dependencies.last()).1 {
                    assert forall|k: int| 0 <= k < dependencies.len() implies after.has_node(
                        #[trigger] dependencies[k],
                    ) && after.has_edge(after.index_of(dependencies[k]), target) by {
                        if k < front.len() {
                            assert(front[k] == dependencies[k]);
                            graph.lemma_index_kept(after, dependencies[k]);
                        }
                    }
                }
            }
        }
    }

    /// A dependency that the target already reaches is refused, wherever it
    /// stands in the list, unless one before it was refused: either way the
    /// list as a whole is.
    pub proof fn lemma_with_dependencies_refused(
        self,
        target: int,
        dependencies: Seq<Seq<char>>,
        at: int,
    )
        requires
            self.well_formed(),
            self.has_index(target),
            0 <= at < dependencies.len(),
            self.has_node(dependencies[at]),
            self.reaches(target, self.index_of(dependencies[at])),
        ensures
            !self.with_dependencies(target, dependencies).1,
    {
        let upto = dependencies.take(at);
        let (graph, ok) = self.with_dependencies(target, upto);
        assert(dependencies.take(at + 1).drop_last() =~= upto);
        assert(dependencies.take(at + 1).last() == dependencies[at]);
        if ok {
            self.lemma_with_dependencies(target, upto);
            self.lemma_index_kept(graph, dependencies[at]);
            self.lemma_reaches_kept(graph, target, self.index_of(dependencies[at]));
            assert(graph.with_node(dependencies[at]) == graph);
            assert(!graph.with_dependency(target, dependencies[at]).1);
        }
        assert(!self.with_dependencies(target, dependencies.take(at + 1)).1);
        self.lemma_with_dependencies_stops(target, dependencies, at + 1);
    }

    /// An entity, accepted or refused, keeps the graph well-formed and all
    /// that it holds, and has a node afterwards. Where it was accepted, each
    /// of its dependencies has a node and an edge to it.
    pub proof fn lemma_with_entity(self, name: Seq<char>, dependencies: Seq<Seq<char>>)
        requires
            self.well_formed(),
        ensures
            self.with_entity(name, dependencies).0.well_formed(),
            self.extends_to(self.with_entity(name, dependencies).0),
            self.with_entity(name, dependencies).0.has_node(name),
            self.ranked() ==> self.with_entity(name, dependencies).0.ranked(),
            self.with_entity(name, dependencies).1 ==> forall|k: int|
                0 <= k < dependencies.len() ==> {
                    let after = self.with_entity(name, dependencies).0;
                    after.has_node(#[trigger] dependencies[k]) && after.has_edge(
                        after.index_of(dependencies[k]),
                        after.index_of(name),
                    )
                },
    {
        let grown = self.with_node(name);
        self.lemma_with_node(name);
        let target = grown.index_of(name);
        grown.lemma_with_dependencies(target, dependencies);
        let after = grown.with_dependencies(target, dependencies).0;
        self.lemma_extends_further(grown, after);
        grown.lemma_index_kept(after, name);
    }

    /// An entity that names itself among its dependencies is refused.
    pub proof fn lemma_self_dependency_refused(
        self,
        name: Seq<char>,
        dependencies: Seq<Seq<char>>,
    )
        requires
            self.well_formed(),
            dependencies.contains(name),
        ensures
            !self.with_entity(name, dependencies).1,
    {
        let grown = self.with_node(name);
        self.lemma_with_node(name);
        let target = grown.index_of(name);
        let at = choose|at: int| 0 <= at < dependencies.len() && dependencies[at] == name;
        grown.lemma_reaches_self(target);
        grown.lemma_with_dependencies_refused(target, dependencies, at);
    }

    /// An entity is refused if it names among its dependencies a node that
    /// depends on it.
    pub proof fn lemma_mutual_dependency_refused(
        self,
        name: Seq<char>,
        dependencies: Seq<Seq<char>>,
        other: Seq<char>,
    )
        requires
            self.well_formed(),
            self.has_node(name),
            self.has_node(other),
            self.has_edge(self.index_of(name), self.index_of(other)),
            dependencies.contains(other),
        ensures
            !self.with_entity(name, dependencies).1,
    {
        let target = self.index_of(name);
        self.lemma_index_of_name(name);
        let at = choose|at: int| 0 <= at < dependencies.len() && dependencies[at] == other;
        self.lemma_reaches_self(target);
        self.lemma_reaches_step(target, target, self.index_of(other));
        self.lemma_with_dependencies_refused(target, dependencies, at);
    }
}

} // verus!
