//! The mathematical model of a dependency graph over uniquely named nodes.

use vstd::prelude::*;

verus! {

/// A directed graph whose nodes are numbered in creation order and carry a
/// name. An edge from `a` to `b` says that node `b` depends on node `a`.
pub struct Graph {
    /// The name of each node, by index.
    pub names: Seq<Seq<char>>,
    /// For each node, the nodes that depend on it directly, in the order in
    /// which the edges were added.
    pub children: Seq<Seq<int>>,
}

impl Graph {
    /// The graph without nodes.
    pub open spec fn empty() -> Graph {
        Graph { names: Seq::empty(), children: Seq::empty() }
    }

    /// The number of nodes.
    pub open spec fn len(self) -> nat {
        self.names.len()
    }

    /// Whether `node` is the index of a node.
    pub open spec fn has_index(self, node: int) -> bool {
        0 <= node < self.names.len()
    }

    /// Whether a node is named `name`.
    pub open spec fn has_node(self, name: Seq<char>) -> bool {
        self.names.contains(name)
    }

    /// The index of the node named `name`, where there is one.
    pub open spec fn index_of(self, name: Seq<char>) -> int {
        choose|i: int| 0 <= i < self.names.len() && self.names[i] == name
    }

    /// Whether `to` depends directly on `from`.
    pub open spec fn has_edge(self, from: int, to: int) -> bool {
        0 <= from < self.children.len() && self.children[from].contains(to)
    }

    /// No two nodes share a name, every node has its list of dependents,
    /// every edge joins two nodes, and no edge is held twice.
    pub open spec fn well_formed(self) -> bool {
        &&& self.names.no_duplicates()
        &&& self.children.len() == self.names.len()
        &&& forall|a: int|
            0 <= a < self.children.len() ==> (#[trigger] self.children[a]).no_duplicates()
        &&& forall|a: int, b: int| #[trigger]
            self.has_edge(a, b) ==> self.has_index(a) && self.has_index(b)
    }

    /// Whether `path` is a walk along edges: a non-empty list of nodes, each
    /// but the first depending directly on the one before it.
    pub open spec fn is_path(self, path: Seq<int>) -> bool {
        &&& path.len() > 0
        &&& forall|i: int| 0 <= i < path.len() ==> self.has_index(#[trigger] path[i])
        &&& forall|i: int|
            0 <= i < path.len() - 1 ==> self.has_edge(#[trigger] path[i], path[i + 1])
    }

    /// Whether `to` is `from` or depends on it, directly or through others.
    pub open spec fn reaches(self, from: int, to: int) -> bool {
        exists|path: Seq<int>| #[trigger]
            self.is_path(path) && path.first() == from && path.last() == to
    }

    /// Whether `rank` gives every node a number that is smaller than that of
    /// each of its dependents.
    pub open spec fn ranked_by(self, rank: Seq<int>) -> bool {
        &&& rank.len() == self.names.len()
        &&& forall|a: int, b: int| #[trigger] self.has_edge(a, b) ==> rank[a] < rank[b]
    }

    /// Whether the nodes can be ranked so that every edge leads upwards.
    pub open spec fn ranked(self) -> bool {
        exists|rank: Seq<int>| self.ranked_by(rank)
    }

    /// Whether no edge closes a directed cycle: no node depends directly on
    /// one that it reaches.
    pub open spec fn acyclic(self) -> bool {
        forall|a: int, b: int| #[trigger] self.has_edge(a, b) ==> !self.reaches(b, a)
    }

    /// The graph with a node named `name`: itself where it has one already,
    /// else one node more, without edges.
    pub open spec fn with_node(self, name: Seq<char>) -> Graph {
        if self.has_node(name) {
            self
        } else {
            Graph { names: self.names.push(name), children: self.children.push(Seq::empty()) }
        }
    }

    /// The graph with an edge from `from` to `to`: itself where it has that
    /// edge already, else with `to` as the last of the dependents of `from`.
    pub open spec fn with_edge(self, from: int, to: int) -> Graph {
        if self.has_edge(from, to) {
            self
        } else {
            Graph {
                names: self.names,
                children: self.children.update(from, self.children[from].push(to)),
            }
        }
    }

    /// The edges of a graph with one edge more are its own and that one.
    pub proof fn lemma_with_edge_edges(self, from: int, to: int, a: int, b: int)
        requires
            0 <= from < self.children.len(),
        ensures
            self.with_edge(from, to).has_edge(a, b) <==> (self.has_edge(a, b) || (a == from && b
                == to)),
    {
        if !self.has_edge(from, to) {
            if a == from {
                lemma_push_contains(self.children[from], to, b);
            }
        }
    }

    /// In a well-formed graph a node is found again by its name.
    pub proof fn lemma_index_of(self, node: int)
        requires
            self.well_formed(),
            self.has_index(node),
        ensures
            self.has_node(self.names[node]),
            self.index_of(self.names[node]) == node,
    {
        assert(self.names.contains(self.names[node]));
        let found = self.index_of(self.names[node]);
        assert(0 <= found < self.names.len() && self.names[found] == self.names[node]);
    }

    /// The index of a name that the graph holds is that of a node of that name.
    pub proof fn lemma_index_of_name(self, name: Seq<char>)
        requires
            self.has_node(name),
        ensures
            self.has_index(self.index_of(name)),
            self.names[self.index_of(name)] == name,
    {
        let i = choose|i: int| 0 <= i < self.names.len() && self.names[i] == name;
        assert(0 <= i < self.names.len() && self.names[i] == name);
    }

    /// Every node reaches itself.
    pub proof fn lemma_reaches_self(self, node: int)
        requires
            self.has_index(node),
        ensures
            self.reaches(node, node),
    {
        let path = seq![node];
        assert(self.is_path(path));
        assert(path.first() == node && path.last() == node);
    }

    /// What reaches a node reaches its direct dependents.
    pub proof fn lemma_reaches_step(self, from: int, via: int, to: int)
        requires
            self.well_formed(),
            self.reaches(from, via),
            self.has_edge(via, to),
        ensures
            self.reaches(from, to),
    {
        let path = choose|path: Seq<int>| #[trigger]
            self.is_path(path) && path.first() == from && path.last() == via;
        let longer = path.push(to);
        assert forall|i: int| 0 <= i < longer.len() - 1 implies self.has_edge(
            #[trigger] longer[i],
            longer[i + 1],
        ) by {
            if i < path.len() - 1 {
                assert(longer[i] == path[i] && longer[i + 1] == path[i + 1]);
            }
        }
        assert forall|i: int| 0 <= i < longer.len() implies self.has_index(
            #[trigger] longer[i],
        ) by {
            if i < path.len() {
                assert(longer[i] == path[i]);
            }
        }
        assert(self.is_path(longer));
        assert(longer.first() == from && longer.last() == to);
    }

    /// Along a path the rank never falls, and it rises where the path has an
    /// edge.
    pub proof fn lemma_rank_along_path(self, rank: Seq<int>, path: Seq<int>)
        requires
            self.ranked_by(rank),
            self.is_path(path),
        ensures
            rank[path.first()] <= rank[path.last()],
            path.len() > 1 ==> rank[path.first()] < rank[path.last()],
        decreases path.len(),
    {
        if path.len() > 1 {
            let front = path.drop_last();
            assert forall|i: int| 0 <= i < front.len() - 1 implies self.has_edge(
                #[trigger] front[i],
                front[i + 1],
            ) by {
                assert(front[i] == path[i] && front[i + 1] == path[i + 1]);
            }
            assert forall|i: int| 0 <= i < front.len() implies self.has_index(
                #[trigger] front[i],
            ) by {
                assert(front[i] == path[i]);
            }
            self.lemma_rank_along_path(rank, front);
            let last = path.len() - 1;
            assert(self.has_edge(path[last - 1], path[last - 1 + 1]));
            assert(front.last() == path[last - 1]);
            assert(front.first() == path.first());
        }
    }

    /// A graph whose nodes can be ranked holds no directed cycle.
    pub proof fn lemma_ranked_is_acyclic(self)
        requires
            self.ranked(),
        ensures
            self.acyclic(),
    {
        let rank = choose|rank: Seq<int>| self.ranked_by(rank);
        assert forall|a: int, b: int| #[trigger] self.has_edge(a, b) implies !self.reaches(
            b,
            a,
        ) by {
            if self.reaches(b, a) {
                let path = choose|path: Seq<int>| #[trigger]
                    self.is_path(path) && path.first() == b && path.last() == a;
                self.lemma_rank_along_path(rank, path);
            }
        }
    }

    /// A set of nodes that holds `from` and, with each node, its direct
    /// dependents, holds every node that `from` reaches.
    pub proof fn lemma_closed_set_holds_reachable(self, from: int, closed: Set<int>, to: int)
        requires
            closed.contains(from),
            forall|a: int, b: int| closed.contains(a) && #[trigger] self.has_edge(a, b)
                ==> closed.contains(b),
            self.reaches(from, to),
        ensures
            closed.contains(to),
    {
        let path = choose|path: Seq<int>| #[trigger]
            self.is_path(path) && path.first() == from && path.last() == to;
        self.lemma_closed_set_holds_path(closed, path, path.len() - 1);
    }

    /// A set of nodes that holds the first node of a path and, with each node,
    /// its direct dependents, holds every node of the path.
    proof fn lemma_closed_set_holds_path(self, closed: Set<int>, path: Seq<int>, upto: int)
        requires
            self.is_path(path),
            closed.contains(path.first()),
            forall|a: int, b: int| closed.contains(a) && #[trigger] self.has_edge(a, b)
                ==> closed.contains(b),
            0 <= upto < path.len(),
        ensures
            closed.contains(path[upto]),
        decreases upto,
    {
        if upto > 0 {
            self.lemma_closed_set_holds_path(closed, path, upto - 1);
            assert(self.has_edge(path[upto - 1], path[upto - 1 + 1]));
        }
    }

    /// What becomes of the graph when the node `target` is made to depend on
    /// the node named `dependency`, and whether that succeeded. The node is
    /// created where it is missing. The edge is refused, and the graph left
    /// without it, where `target` already reaches the dependency: the edge
    /// would close a cycle.
    pub open spec fn with_dependency(self, target: int, dependency: Seq<char>) -> (Graph, bool) {
        let grown = self.with_node(dependency);
        let source = grown.index_of(dependency);
        if grown.reaches(target, source) {
            (grown, false)
        } else {
            (grown.with_edge(source, target), true)
        }
    }

    /// `with_dependency` for each of `dependencies` in turn, up to and
    /// including the first that is refused.
    pub open spec fn with_dependencies(self, target: int, dependencies: Seq<Seq<char>>) -> (
        Graph,
        bool,
    )
        decreases dependencies.len(),
    {
        if dependencies.len() == 0 {
            (self, true)
        } else {
            let (graph, ok) = self.with_dependencies(target, dependencies.drop_last());
            if ok {
                graph.with_dependency(target, dependencies.last())
            } else {
                (graph, false)
            }
        }
    }

    /// What becomes of the graph when the entity `name` is added with its
    /// dependencies, and whether that succeeded.
    pub open spec fn with_entity(self, name: Seq<char>, dependencies: Seq<Seq<char>>) -> (
        Graph,
        bool,
    ) {
        let grown = self.with_node(name);
        grown.with_dependencies(grown.index_of(name), dependencies)
    }

    /// Once a dependency has been refused, the ones after it change nothing.
    pub proof fn lemma_with_dependencies_stops(
        self,
        target: int,
        dependencies: Seq<Seq<char>>,
        failed: int,
    )
        requires
            0 <= failed <= dependencies.len(),
            !self.with_dependencies(target, dependencies.take(failed)).1,
        ensures
            self.with_dependencies(target, dependencies) == self.with_dependencies(
                target,
                dependencies.take(failed),
            ),
        decreases dependencies.len() - failed,
    {
        if failed < dependencies.len() {
            assert(dependencies.take(failed + 1).drop_last() =~= dependencies.take(failed));
            self.lemma_with_dependencies_stops(target, dependencies, failed + 1);
        } else {
            assert(dependencies.take(failed) =~= dependencies);
        }
    }

    /// Whether `order` lists nodes by index, none twice, each after all the
    /// nodes that it depends on directly.
    pub open spec fn is_visit_prefix(self, order: Seq<int>) -> bool {
        &&& order.no_duplicates()
        &&& forall|p: int| 0 <= p < order.len() ==> self.has_index(#[trigger] order[p])
        &&& forall|p: int, a: int|
            0 <= p < order.len() && #[trigger] self.has_edge(a, order[p]) ==> exists|q: int|
                0 <= q < p && order[q] == a
    }

    /// The names of the nodes that `order` lists by index.
    pub open spec fn names_along(self, order: Seq<int>) -> Seq<Seq<char>> {
        order.map_values(|node: int| self.names[node])
    }

    /// Whether `visited` names every node exactly once, each after all the
    /// nodes that it depends on.
    pub open spec fn is_dependency_order(self, visited: Seq<Seq<char>>) -> bool {
        &&& visited.len() == self.names.len()
        &&& visited.no_duplicates()
        &&& forall|name: Seq<char>| visited.contains(name) <==> self.has_node(name)
        &&& forall|p: int, q: int|
            0 <= p < visited.len() && 0 <= q < visited.len() && #[trigger] self.has_edge(
                self.index_of(visited[p]),
                self.index_of(visited[q]),
            ) ==> p < q
    }

    /// Whether the nodes that `complete` does not hold can wait for ever: each
    /// of them depends directly on another of them.
    pub open spec fn starved(self, complete: Set<int>) -> bool {
        forall|x: int|
            self.has_index(x) && !complete.contains(x) ==> exists|a: int| #[trigger]
                self.has_edge(a, x) && !complete.contains(a)
    }

    /// A chain of nodes outside `complete`, each depending directly on the
    /// next, along which the rank falls.
    pub open spec fn is_waiting_chain(
        self,
        rank: Seq<int>,
        complete: Set<int>,
        chain: Seq<int>,
    ) -> bool {
        &&& forall|i: int|
            0 <= i < chain.len() ==> self.has_index(#[trigger] chain[i]) && !complete.contains(
                chain[i],
            )
        &&& forall|i: int, j: int|
            0 <= i < j < chain.len() ==> rank[#[trigger] chain[j]] < rank[#[trigger] chain[i]]
    }

    /// Where the waiting nodes are starved, a waiting chain can be made as
    /// long as one likes.
    proof fn lemma_extend_waiting_chain(
        self,
        rank: Seq<int>,
        complete: Set<int>,
        chain: Seq<int>,
        length: nat,
    ) -> (long: Seq<int>)
        requires
            self.well_formed(),
            self.ranked_by(rank),
            self.starved(complete),
            self.is_waiting_chain(rank, complete, chain),
            0 < chain.len() <= length,
        ensures
            self.is_waiting_chain(rank, complete, long),
            long.len() == length,
        decreases length - chain.len(),
    {
        if chain.len() == length {
            chain
        } else {
            let last = chain.last();
            let a = choose|a: int| #[trigger] self.has_edge(a, last) && !complete.contains(a);
            let longer = chain.push(a);
            assert forall|i: int, j: int| 0 <= i < j < longer.len() implies rank[
            #[trigger] longer[j]] < rank[#[trigger] longer[i]] by {
                if j == chain.len() {
                    if i < chain.len() - 1 {
                        assert(rank[chain[chain.len() - 1]] < rank[chain[i]]);
                    }
                }
            }
            self.lemma_extend_waiting_chain(rank, complete, longer, length)
        }
    }

    /// In a graph whose nodes can be ranked no node is starved: if every node
    /// outside `complete` depends directly on another node outside it, then
    /// `complete` holds every node.
    pub proof fn lemma_no_starvation(self, complete: Set<int>, node: int)
        requires
            self.well_formed(),
            self.ranked(),
            self.starved(complete),
            self.has_index(node),
        ensures
            complete.contains(node),
    {
        if !complete.contains(node) {
            let rank = choose|rank: Seq<int>| self.ranked_by(rank);
            let long = self.lemma_extend_waiting_chain(
                rank,
                complete,
                seq![node],
                self.names.len() + 1,
            );
            assert forall|i: int, j: int|
                0 <= i < long.len() && 0 <= j < long.len() && i != j implies long[i] != long[j] by {
                if i < j {
                    assert(rank[long[j]] < rank[long[i]]);
                } else {
                    assert(rank[long[i]] < rank[long[j]]);
                }
            }
            lemma_distinct_bounded(long, self.names.len() as int);
        }
    }

    /// The names along a complete visit order by index form a dependency
    /// order.
    pub proof fn lemma_names_along_order(self, order: Seq<int>)
        requires
            self.well_formed(),
            self.is_visit_prefix(order),
            forall|x: int| self.has_index(x) ==> order.contains(x),
        ensures
            self.is_dependency_order(self.names_along(order)),
    {
        let visited = self.names_along(order);
        lemma_distinct_bounded(order, self.names.len() as int);
        assert forall|p: int, q: int|
            0 <= p < visited.len() && 0 <= q < visited.len() && p != q implies visited[p]
            != visited[q] by {
            assert(self.has_index(order[p]) && self.has_index(order[q]));
        }
        assert forall|name: Seq<char>| visited.contains(name) <==> self.has_node(name) by {
            if visited.contains(name) {
                let p = choose|p: int| 0 <= p < visited.len() && visited[p] == name;
                assert(self.has_index(order[p]));
                assert(self.names[order[p]] == name);
            }
            if self.has_node(name) {
                self.lemma_index_of_name(name);
                let x = self.index_of(name);
                let p = choose|p: int| 0 <= p < order.len() && order[p] == x;
                assert(visited[p] == name);
            }
        }
        assert forall|p: int, q: int|
            0 <= p < visited.len() && 0 <= q < visited.len() && #[trigger] self.has_edge(
                self.index_of(visited[p]),
                self.index_of(visited[q]),
            ) implies p < q by {
            assert(self.has_index(order[p]) && self.has_index(order[q]));
            self.lemma_index_of(order[p]);
            self.lemma_index_of(order[q]);
            assert(self.has_edge(order[p], order[q]));
            let earlier = choose|earlier: int| 0 <= earlier < q && order[earlier] == order[p];
            assert(earlier == p);
        }
    }
}

/// A list of node indices as the model holds it.
pub open spec fn indices(list: Seq<usize>) -> Seq<int> {
    list.map_values(|node: usize| node as int)
}

/// Lists of node indices as the model holds them.
pub open spec fn index_lists(lists: Seq<Vec<usize>>) -> Seq<Seq<int>> {
    Seq::new(lists.len(), |node: int| indices(lists[node]@))
}

/// The model of a list holds a number exactly if the list does.
pub proof fn lemma_indices_contains(list: Seq<usize>, x: int)
    ensures
        indices(list).contains(x) <==> (0 <= x <= usize::MAX && list.contains(x as usize)),
{
    if indices(list).contains(x) {
        let i = choose|i: int| 0 <= i < indices(list).len() && indices(list)[i] == x;
        assert(list[i] == x as usize);
    }
    if 0 <= x <= usize::MAX && list.contains(x as usize) {
        let i = choose|i: int| 0 <= i < list.len() && list[i] == x as usize;
        assert(indices(list)[i] == x);
    }
}

/// The model of a list without repetitions has none.
pub proof fn lemma_indices_distinct(list: Seq<usize>)
    requires
        list.no_duplicates(),
    ensures
        indices(list).no_duplicates(),
{
    assert forall|i: int, j: int|
        0 <= i < indices(list).len() && 0 <= j < indices(list).len() && i != j implies indices(
        list,
    )[i] != indices(list)[j] by {
        assert(list[i] != list[j]);
    }
}

/// The model of a list with one item more.
pub proof fn lemma_indices_push(list: Seq<usize>, last: usize)
    ensures
        indices(list.push(last)) == indices(list).push(last as int),
{
    assert(indices(list.push(last)) =~= indices(list).push(last as int));
}

/// What a list holds once an item is pushed onto it.
pub proof fn lemma_push_contains<T>(s: Seq<T>, last: T, x: T)
    ensures
        s.push(last).contains(x) <==> (s.contains(x) || x == last),
{
    if s.push(last).contains(x) {
        let i = choose|i: int| 0 <= i < s.push(last).len() && s.push(last)[i] == x;
        if i < s.len() {
            assert(s[i] == x);
        }
    }
    if s.contains(x) {
        let i = choose|i: int| 0 <= i < s.len() && s[i] == x;
        assert(s.push(last)[i] == x);
    }
    if x == last {
        assert(s.push(last)[s.len() as int] == x);
    }
}

/// A list without repetitions of numbers from 0 up to `bound` has at most
/// `bound` entries, and exactly `bound` when every such number occurs in it.
pub proof fn lemma_distinct_bounded(list: Seq<int>, bound: int)
    requires
        0 <= bound,
        list.no_duplicates(),
        forall|i: int| 0 <= i < list.len() ==> 0 <= #[trigger] list[i] < bound,
    ensures
        list.len() <= bound,
        list.len() == bound <==> (forall|x: int| 0 <= x < bound ==> list.contains(x)),
{
    let range = vstd::set_lib::set_int_range(0, bound);
    list.unique_seq_to_set();
    vstd::set_lib::lemma_int_range(0, bound);
    vstd::seq_lib::seq_to_set_is_finite(list);
    assert(list.to_set().subset_of(range)) by {
        assert forall|x: int| list.to_set().contains(x) implies range.contains(x) by {
            let i = choose|i: int| 0 <= i < list.len() && list[i] == x;
            assert(0 <= list[i] < bound);
        }
    }
    vstd::set_lib::lemma_len_subset(list.to_set(), range);
    if list.len() == bound {
        vstd::set_lib::lemma_subset_equality(list.to_set(), range);
        assert forall|x: int| 0 <= x < bound implies list.contains(x) by {
            assert(range.contains(x));
            assert(list.to_set().contains(x));
        }
    }
    if forall|x: int| 0 <= x < bound ==> list.contains(x) {
        assert(range.subset_of(list.to_set())) by {
            assert forall|x: int| range.contains(x) implies list.to_set().contains(x) by {
                assert(list.contains(x));
            }
        }
        vstd::set_lib::lemma_len_subset(range, list.to_set());
    }
}

} // verus!
