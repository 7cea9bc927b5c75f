//! The dependency graph: an arena of uniquely named nodes with adjacency
//! lists, kept free of cycles at every insertion.

use vstd::prelude::*;
use vstd::hash_map::StringHashMap;
use crate::graph::{
    Graph,
    index_lists,
    indices,
    lemma_distinct_bounded,
    lemma_indices_contains,
    lemma_indices_distinct,
    lemma_indices_push,
    lemma_push_contains,
};
use crate::render::{dot_of, dot_text, edge_count, edge_total, text_of, DRAWABLE};
use crate::syntax::{names_of, lemma_names_of_push};

verus! {

/// A directed acyclic graph over uniquely named nodes.
///
/// Nodes are created on first mention of their name and keep their index for
/// the lifetime of the graph. An edge leads from a dependency to its dependent.
pub struct UniqueDag {
    /// The name of each node, by index.
    names: Vec<String>,
    /// For each node, the nodes that it depends on directly.
    parents: Vec<Vec<usize>>,
    /// For each node, the nodes that depend on it directly.
    children: Vec<Vec<usize>>,
    /// The index of each name.
    node_indexes: StringHashMap<usize>,
}

impl View for UniqueDag {
    type V = Graph;

    /// The graph that the arena holds: the names by index, and for each node
    /// its dependents in the order in which the edges were added.
    closed spec fn view(&self) -> Graph {
        Graph {
            names: names_of(self.names@),
            children: index_lists(self.children@),
        }
    }
}

impl UniqueDag {
    /// The representation invariant: the adjacency lists mirror one another,
    /// name only nodes and name none twice, the registry maps each name to its
    /// node, and the nodes can be ranked along the edges.
    pub closed spec fn wf(&self) -> bool {
        &&& self.parents.len() == self.names.len()
        &&& self.children.len() == self.names.len()
        &&& forall|i: int|
            0 <= i < self.names.len() ==> self.node_indexes@.contains_key(
                #[trigger] self.names@[i]@,
            ) && self.node_indexes@[self.names@[i]@] == i
        &&& forall|name: Seq<char>| #[trigger]
            self.node_indexes@.contains_key(name) ==> self.node_indexes@[name] < self.names.len()
                && self.names@[self.node_indexes@[name] as int]@ == name
        &&& forall|v: int, k: int|
            0 <= v < self.parents.len() && 0 <= k < self.parents@[v].len() ==> (
            #[trigger] self.parents@[v]@[k]) < self.names.len()
        &&& forall|u: int, k: int|
            0 <= u < self.children.len() && 0 <= k < self.children@[u].len() ==> (
            #[trigger] self.children@[u]@[k]) < self.names.len()
        &&& forall|u: int, v: int|
            0 <= u < self.names.len() && 0 <= v < self.names.len() ==> (
            #[trigger] self.children@[u]@.contains(v as usize)
                <==> #[trigger] self.parents@[v]@.contains(u as usize))
        &&& forall|v: int|
            0 <= v < self.parents.len() ==> (#[trigger] self.parents@[v])@.no_duplicates()
        &&& forall|u: int|
            0 <= u < self.children.len() ==> (#[trigger] self.children@[u])@.no_duplicates()
        &&& self@.ranked()
    }

    /// A graph that meets its invariant is well-formed and free of cycles.
    pub proof fn lemma_wf(&self)
        requires
            self.wf(),
        ensures
            self@.well_formed(),
            self@.ranked(),
            self@.acyclic(),
    {
        let names = names_of(self.names@);
        assert forall|i: int, j: int|
            0 <= i < names.len() && 0 <= j < names.len() && i != j implies names[i] != names[j] by {
            assert(self.node_indexes@[self.names@[i]@] == i);
            assert(self.node_indexes@[self.names@[j]@] == j);
        }
        assert forall|a: int| 0 <= a < self@.children.len() implies (
        #[trigger] self@.children[a]).no_duplicates() by {
            assert(self.children@[a]@.no_duplicates());
            lemma_indices_distinct(self.children@[a]@);
        }
        assert forall|a: int, b: int| #[trigger] self@.has_edge(a, b) implies self@.has_index(a)
            && self@.has_index(b) by {
            lemma_indices_contains(self.children@[a]@, b);
            let k = choose|k: int|
                0 <= k < self.children@[a]@.len() && self.children@[a]@[k] == b as usize;
            assert(self.children@[a]@[k] < self.names.len());
        }
        self@.lemma_ranked_is_acyclic();
    }

    /// An empty graph.
    pub fn new() -> (dag: UniqueDag)
        ensures
            dag.wf(),
            dag@ == Graph::empty(),
    {
        let dag = UniqueDag {
            names: Vec::new(),
            parents: Vec::new(),
            children: Vec::new(),
            node_indexes: StringHashMap::new(),
        };
        proof {
            assert(dag@.names =~= Seq::empty());
            assert(dag@.children =~= Seq::empty());
            assert(dag@.ranked_by(Seq::empty()));
        }
        dag
    }

    /// The number of nodes.
    pub fn len(&self) -> (n: usize)
        requires
            self.wf(),
        ensures
            n == self@.len(),
    {
        self.names.len()
    }

    /// The index of the node named `name`, if there is one.
    pub fn find(&self, name: &str) -> (found: Option<usize>)
        requires
            self.wf(),
        ensures
            found is Some <==> self@.has_node(name@),
            found matches Some(index) ==> index == self@.index_of(name@),
    {
        proof {
            self.lemma_wf();
        }
        match self.node_indexes.get(name) {
            Some(index) => {
                proof {
                    assert(self@.names[*index as int] == name@);
                    self@.lemma_index_of(*index as int);
                }
                Some(*index)
            },
            None => {
                proof {
                    if self@.has_node(name@) {
                        let i = choose|i: int|
                            0 <= i < self@.names.len() && self@.names[i] == name@;
                        assert(self.names@[i]@ == name@);
                    }
                }
                None
            },
        }
    }

    /// What holds once a node has been pushed onto an arena that had none of
    /// its name.
    proof fn lemma_node_added(before: UniqueDag, after: UniqueDag, val: String)
        requires
            before.wf(),
            !before@.has_node(val@),
            after.node_indexes@ == before.node_indexes@.insert(val@, before.names.len()),
            after.names@ == before.names@.push(val),
            after.parents@.len() == before.parents.len() + 1,
            after.children@.len() == before.children.len() + 1,
            forall|v: int|
                0 <= v < before.parents.len() ==> after.parents@[v] == before.parents@[v],
            forall|u: int|
                0 <= u < before.children.len() ==> after.children@[u] == before.children@[u],
            after.parents@[before.parents.len() as int]@ == Seq::<usize>::empty(),
            after.children@[before.children.len() as int]@ == Seq::<usize>::empty(),
        ensures
            after.wf(),
            after@ == before@.with_node(val@),
            after@.has_index(before.names.len() as int),
            after@.names[before.names.len() as int] == val@,
            after@.index_of(val@) == before.names.len(),
    {
        let index = before.names.len();
        before.lemma_wf();
        lemma_names_of_push(before.names@, val);
        assert(after@.names == before@.names.push(val@));
        assert(after@.children =~= before@.children.push(Seq::empty())) by {
            assert forall|u: int| 0 <= u < after.children.len() implies after@.children[u]
                == before@.children.push(Seq::<int>::empty())[u] by {
                if u < index {
                    assert(after.children@[u] == before.children@[u]);
                } else {
                    assert(indices(after.children@[u]@) =~= Seq::<int>::empty());
                }
            }
        }
        assert(after@ == before@.with_node(val@));
        before@.lemma_with_node(val@);
        assert forall|i: int| 0 <= i < after.names.len() implies
            after.node_indexes@.contains_key(#[trigger] after.names@[i]@)
            && after.node_indexes@[after.names@[i]@] == i by {
            if i < index {
                assert(after.names@[i] == before.names@[i]);
                assert(before.node_indexes@.contains_key(before.names@[i]@));
                assert(before@.names[i] == before.names@[i]@);
                assert(before@.names.contains(before.names@[i]@));
            }
        }
        assert forall|name: Seq<char>| #[trigger]
            after.node_indexes@.contains_key(name) implies
            after.node_indexes@[name] < after.names.len()
            && after.names@[after.node_indexes@[name] as int]@ == name by {
            if name != val@ {
                assert(before.node_indexes@.contains_key(name));
                let i = before.node_indexes@[name] as int;
                assert(after.names@[i] == before.names@[i]);
            }
        }
        assert forall|u: int, v: int|
            0 <= u < after.names.len() && 0 <= v < after.names.len() implies (
            #[trigger] after.children@[u]@.contains(v as usize)
                <==> #[trigger] after.parents@[v]@.contains(u as usize)) by {
            if u < index && v < index {
                assert(after.children@[u] == before.children@[u]);
                assert(after.parents@[v] == before.parents@[v]);
            } else if u < index {
                assert(after.children@[u] == before.children@[u]);
                assert(after.parents@[v]@ =~= Seq::<usize>::empty());
                if before.children@[u]@.contains(v as usize) {
                    let k = choose|k: int|
                        0 <= k < before.children@[u]@.len()
                            && before.children@[u]@[k] == v as usize;
                    assert(before.children@[u]@[k] < before.names.len());
                }
            } else if v < index {
                assert(after.parents@[v] == before.parents@[v]);
                assert(after.children@[u]@ =~= Seq::<usize>::empty());
                if before.parents@[v]@.contains(u as usize) {
                    let k = choose|k: int|
                        0 <= k < before.parents@[v]@.len()
                            && before.parents@[v]@[k] == u as usize;
                    assert(before.parents@[v]@[k] < before.names.len());
                }
            } else {
                assert(after.parents@[v]@ =~= Seq::<usize>::empty());
                assert(after.children@[u]@ =~= Seq::<usize>::empty());
            }
        }
        assert forall|v: int, k: int|
            0 <= v < after.parents.len() && 0 <= k < after.parents@[v].len() implies (
            #[trigger] after.parents@[v]@[k]) < after.names.len() by {
            if v < index {
                assert(after.parents@[v] == before.parents@[v]);
                assert(before.parents@[v]@[k] < before.names.len());
            }
        }
        assert forall|u: int, k: int|
            0 <= u < after.children.len() && 0 <= k < after.children@[u].len() implies (
            #[trigger] after.children@[u]@[k]) < after.names.len() by {
            if u < index {
                assert(after.children@[u] == before.children@[u]);
                assert(before.children@[u]@[k] < before.names.len());
            }
        }
        assert forall|v: int| 0 <= v < after.parents.len() implies (
        #[trigger] after.parents@[v])@.no_duplicates() by {
            if v < index {
                assert(after.parents@[v] == before.parents@[v]);
            }
        }
        assert forall|u: int| 0 <= u < after.children.len() implies (
        #[trigger] after.children@[u])@.no_duplicates() by {
            if u < index {
                assert(after.children@[u] == before.children@[u]);
            }
        }
        assert(after@.names[index as int] == val@);
        assert(after@.names.contains(val@));
        after.lemma_wf();
        after@.lemma_index_of(index as int);
    }

    /// The index of the node named `val`, which is created if the graph has
    /// none of that name yet. Asking again for the same name gives the same
    /// index and leaves the graph as it is.
    pub fn ensure_node(&mut self, val: String) -> (index: usize)
        requires
            old(self).wf(),
        ensures
            final(self).wf(),
            final(self)@ == old(self)@.with_node(val@),
            index == final(self)@.index_of(val@),
            final(self)@.has_index(index as int),
            final(self)@.names[index as int] == val@,
    {
        proof {
            self.lemma_wf();
        }
        match self.find(val.as_str()) {
            Some(index) => {
                proof {
                    self@.lemma_index_of_name(val@);
                }
                index
            },
            None => {
                let index = self.names.len();
                let ghost before = *self;
                self.node_indexes.insert(val.clone(), index);
                self.names.push(val);
                self.parents.push(Vec::new());
                self.children.push(Vec::new());
                proof {
                    Self::lemma_node_added(before, *self, val);
                }
                index
            },
        }
    }

    /// The name of the node `node`.
    pub fn name(&self, node: usize) -> (name: &String)
        requires
            self.wf(),
            node < self@.len(),
        ensures
            name@ == self@.names[node as int],
    {
        &self.names[node]
    }

    /// The nodes that `node` depends on directly.
    pub fn parents(&self, node: usize) -> (list: &Vec<usize>)
        requires
            self.wf(),
            node < self@.len(),
        ensures
            forall|k: int|
                0 <= k < list.len() ==> (#[trigger] list@[k]) < self@.len() && self@.has_edge(
                    list@[k] as int,
                    node as int,
                ),
            forall|a: int| #[trigger] self@.has_edge(a, node as int) ==> list@.contains(a as usize),
            list@.no_duplicates(),
    {
        let list = &self.parents[node];
        proof {
            assert forall|k: int| 0 <= k < list.len() implies (#[trigger] list@[k]) < self@.len()
                && self@.has_edge(list@[k] as int, node as int) by {
                assert(self.parents@[node as int]@[k] < self.names.len());
                assert(self.parents@[node as int]@.contains(list@[k]));
                self.lemma_edge_is_child(list@[k] as int, node as int);
            }
            assert forall|a: int| #[trigger] self@.has_edge(a, node as int) implies list@.contains(
                a as usize,
            ) by {
                self.lemma_wf();
                assert(self@.has_index(a));
                self.lemma_edge_is_child(a, node as int);
            }
        }
        list
    }

    /// The nodes that depend directly on `node`.
    pub fn children(&self, node: usize) -> (list: &Vec<usize>)
        requires
            self.wf(),
            node < self@.len(),
        ensures
            forall|k: int|
                0 <= k < list.len() ==> (#[trigger] list@[k]) < self@.len() && self@.has_edge(
                    node as int,
                    list@[k] as int,
                ),
            forall|b: int| #[trigger] self@.has_edge(node as int, b) ==> list@.contains(b as usize),
            list@.no_duplicates(),
            indices(list@) == self@.children[node as int],
    {
        let list = &self.children[node];
        proof {
            assert forall|k: int| 0 <= k < list.len() implies (#[trigger] list@[k]) < self@.len()
                && self@.has_edge(node as int, list@[k] as int) by {
                assert(self.children@[node as int]@[k] < self.names.len());
                assert(self.children@[node as int]@.contains(list@[k]));
                self.lemma_edge_is_child(node as int, list@[k] as int);
            }
            assert forall|b: int| #[trigger] self@.has_edge(node as int, b) implies list@.contains(
                b as usize,
            ) by {
                self.lemma_wf();
                assert(self@.has_index(b));
                self.lemma_edge_is_child(node as int, b);
            }
        }
        list
    }

    /// The description of the graph in the DOT language, for a look at it:
    /// the nodes with their names as labels, then the edges, each from a
    /// dependency to its dependent. There is one for every graph of fewer than
    /// `DRAWABLE` nodes and edges.
    pub fn to_dot(&self) -> (text: Option<String>)
        requires
            self.wf(),
        ensures
            text is Some <==> self@.len() < DRAWABLE && edge_count(self@.children) < DRAWABLE,
            text is Some ==> text_of(text) == dot_text(self@.names, self@.children),
    {
        if self.names.len() >= DRAWABLE {
            return None;
        }
        match edge_total(&self.children) {
            Some(_) => {
                proof {
                    self.lemma_wf();
                }
                dot_of(&self.names, &self.children)
            },
            None => None,
        }
    }

    /// Whether a graph edge leads from `from` to `to`, read off the adjacency
    /// list of `from`.
    proof fn lemma_edge_is_child(&self, from: int, to: int)
        requires
            self.wf(),
            0 <= from < self.names.len(),
            0 <= to < self.names.len(),
        ensures
            self@.has_edge(from, to) <==> self.children@[from]@.contains(to as usize),
            self@.has_edge(from, to) <==> self.parents@[to]@.contains(from as usize),
    {
        lemma_indices_contains(self.children@[from]@, to);
        assert(self.children@[from]@.contains(to as usize) <==> self.parents@[to]@.contains(
            from as usize,
        ));
    }

    /// Whether the node `to` is `from` or depends on it, directly or through
    /// others: a depth-first search along the edges that leave `from`.
    fn reaches(&self, from: usize, to: usize) -> (found: bool)
        requires
            self.wf(),
            from < self@.len(),
            to < self@.len(),
        ensures
            found == self@.reaches(from as int, to as int),
    {
        let n = self.names.len();
        let mut marked: Vec<bool> = Vec::new();
        let mut i: usize = 0;
        while i < n
            invariant
                i <= n,
                marked.len() == i,
                forall|j: int| 0 <= j < i ==> !marked@[j],
            decreases n - i,
        {
            marked.push(false);
            i = i + 1;
        }
        let mut stack: Vec<usize> = Vec::new();
        marked.set(from, true);
        stack.push(from);
        let ghost mut pushed: Seq<int> = seq![from as int];
        proof {
            self.lemma_wf();
            self@.lemma_reaches_self(from as int);
            assert(stack@.contains(from)) by {
                assert(stack@[0] == from);
            }
        }
        while stack.len() > 0
            invariant
                self.wf(),
                self@.well_formed(),
                n == self.names.len(),
                from < n,
                marked.len() == n,
                marked@[from as int],
                forall|k: int|
                    0 <= k < stack.len() ==> #[trigger] stack@[k] < n && marked@[stack@[k] as int],
                forall|x: int|
                    0 <= x < n && #[trigger] marked@[x] ==> self@.reaches(from as int, x),
                forall|x: int, c: int|
                    0 <= x < n && marked@[x] && #[trigger] self@.has_edge(x, c) ==> stack@.contains(
                        x as usize,
                    ) || marked@[c],
                pushed.no_duplicates(),
                forall|k: int|
                    0 <= k < pushed.len() ==> 0 <= #[trigger] pushed[k] < n && marked@[pushed[k]],
            decreases 2 * (n - pushed.len()) + stack.len(),
        {
            proof {
                lemma_distinct_bounded(pushed, n as int);
            }
            let ghost measure = 2 * (n - pushed.len()) + stack.len();
            let ghost stack_before = stack@;
            let u = stack.pop().unwrap();
            let mut k: usize = 0;
            proof {
                assert(u == stack_before[stack_before.len() - 1]);
                assert forall|x: int, c: int|
                    0 <= x < n && marked@[x] && #[trigger] self@.has_edge(x, c) implies x == u
                    || stack@.contains(x as usize) || marked@[c] by {
                    if stack_before.contains(x as usize) && x != u {
                        let j = choose|j: int|
                            0 <= j < stack_before.len() && stack_before[j] == x as usize;
                        assert(stack@[j] == x as usize);
                    }
                }
            }
            while k < self.children[u].len()
                invariant
                    self.wf(),
                    self@.well_formed(),
                    n == self.names.len(),
                    from < n,
                    u < n,
                    marked.len() == n,
                    marked@[from as int],
                    marked@[u as int],
                    k <= self.children@[u as int].len(),
                    forall|k: int|
                        0 <= k < stack.len() ==> #[trigger] stack@[k] < n
                            && marked@[stack@[k] as int],
                    forall|x: int|
                        0 <= x < n && #[trigger] marked@[x] ==> self@.reaches(from as int, x),
                    forall|x: int, c: int|
                        0 <= x < n && marked@[x] && #[trigger] self@.has_edge(x, c) ==> x == u
                            || stack@.contains(x as usize) || marked@[c],
                    forall|j: int|
                        0 <= j < k ==> marked@[(#[trigger] self.children@[u as int]@[j]) as int],
                    pushed.no_duplicates(),
                    forall|k: int|
                        0 <= k < pushed.len() ==> 0 <= #[trigger] pushed[k] < n
                            && marked@[pushed[k]],
                    pushed.len() <= n,
                    2 * (n - pushed.len()) + stack.len() < measure,
                decreases self.children@[u as int].len() - k,
            {
                let c = self.children[u][k];
                assert(c < n);
                if !marked[c] {
                    let ghost marked_before = marked@;
                    let ghost stack_inner = stack@;
                    marked.set(c, true);
                    stack.push(c);
                    proof {
                        assert(self.children@[u as int]@.contains(c));
                        self.lemma_edge_is_child(u as int, c as int);
                        self@.lemma_reaches_step(from as int, u as int, c as int);
                        assert(!pushed.contains(c as int));
                        pushed = pushed.push(c as int);
                        lemma_distinct_bounded(pushed, n as int);
                        assert forall|x: int, d: int|
                            0 <= x < n && marked@[x] && #[trigger] self@.has_edge(x, d) implies x
                            == u || stack@.contains(x as usize) || marked@[d] by {
                            if x == c {
                                assert(stack@[stack@.len() - 1] == c);
                            } else if stack_inner.contains(x as usize) {
                                let j = choose|j: int|
                                    0 <= j < stack_inner.len() && stack_inner[j] == x as usize;
                                assert(stack@[j] == x as usize);
                            }
                        }
                    }
                }
                k = k + 1;
            }
            proof {
                assert forall|x: int, c: int|
                    0 <= x < n && marked@[x] && #[trigger] self@.has_edge(x, c) implies
                    stack@.contains(x as usize) || marked@[c] by {
                    if x == u {
                        self.lemma_edge_is_child(u as int, c);
                        let j = choose|j: int|
                            0 <= j < self.children@[u as int]@.len() && self.children@[u as int]@[j]
                                == c as usize;
                        assert(marked@[self.children@[u as int]@[j] as int]);
                    }
                }
            }
        }
        proof {
            let closed = Set::new(|x: int| 0 <= x < n && marked@[x]);
            if self@.reaches(from as int, to as int) {
                assert forall|a: int, b: int|
                    closed.contains(a) && #[trigger] self@.has_edge(a, b) implies closed.contains(
                    b,
                ) by {
                    assert(!stack@.contains(a as usize));
                }
                self@.lemma_closed_set_holds_reachable(from as int, closed, to as int);
            }
        }
        marked[to]
    }

    /// What holds once an edge that the arena had not, and that closes no
    /// cycle, has been pushed onto the two adjacency lists.
    proof fn lemma_edge_added(before: UniqueDag, after: UniqueDag, from: usize, to: usize)
        requires
            before.wf(),
            from < before.names.len(),
            to < before.names.len(),
            !before@.reaches(to as int, from as int),
            !before.parents@[to as int]@.contains(from),
            after.names == before.names,
            after.node_indexes == before.node_indexes,
            after.parents@.len() == before.parents.len(),
            after.children@.len() == before.children.len(),
            after.parents@[to as int]@ == before.parents@[to as int]@.push(from),
            after.children@[from as int]@ == before.children@[from as int]@.push(to),
            forall|v: int|
                0 <= v < before.parents.len() && v != to ==> after.parents@[v]
                    == before.parents@[v],
            forall|u: int|
                0 <= u < before.children.len() && u != from ==> after.children@[u]
                    == before.children@[u],
        ensures
            after.wf(),
            after@ == before@.with_edge(from as int, to as int),
    {
        let n = before.names.len() as int;
        before.lemma_wf();
        assert forall|u: int, v: int| 0 <= u < n && 0 <= v < n implies (
        #[trigger] after.parents@[v]@.contains(u as usize) <==> (
        before.parents@[v]@.contains(u as usize) || (u == from && v == to))) by {
            if v == to {
                lemma_push_contains(before.parents@[v]@, from, u as usize);
            }
        }
        assert forall|u: int, v: int| 0 <= u < n && 0 <= v < n implies (
        #[trigger] after.children@[u]@.contains(v as usize) <==> (before.children@[u]@.contains(
            v as usize,
        ) || (u == from && v == to))) by {
            if u == from {
                lemma_push_contains(before.children@[u]@, to, v as usize);
            }
        }
        assert forall|u: int, v: int| 0 <= u < n && 0 <= v < n implies (
        #[trigger] after.children@[u]@.contains(v as usize)
            <==> #[trigger] after.parents@[v]@.contains(u as usize)) by {
            assert(before.children@[u]@.contains(v as usize)
                <==> before.parents@[v]@.contains(u as usize));
        }
        assert forall|v: int, k: int|
            0 <= v < after.parents.len() && 0 <= k < after.parents@[v].len() implies (
        #[trigger] after.parents@[v]@[k]) < after.names.len() by {
            if v == to {
                if k < before.parents@[v].len() {
                    assert(after.parents@[v]@[k] == before.parents@[v]@[k]);
                }
            } else {
                assert(after.parents@[v]@[k] == before.parents@[v]@[k]);
            }
        }
        assert forall|u: int, k: int|
            0 <= u < after.children.len() && 0 <= k < after.children@[u].len() implies (
        #[trigger] after.children@[u]@[k]) < after.names.len() by {
            if u == from {
                if k < before.children@[u].len() {
                    assert(after.children@[u]@[k] == before.children@[u]@[k]);
                }
            } else {
                assert(after.children@[u]@[k] == before.children@[u]@[k]);
            }
        }
        assert forall|v: int| 0 <= v < after.parents.len() implies (
        #[trigger] after.parents@[v])@.no_duplicates() by {
            assert(before.parents@[v]@.no_duplicates());
        }
        assert forall|u: int| 0 <= u < after.children.len() implies (
        #[trigger] after.children@[u])@.no_duplicates() by {
            assert(before.children@[u]@.no_duplicates());
            if u == from {
                assert(before.children@[from as int]@.contains((to as int) as usize)
                    <==> before.parents@[to as int]@.contains((from as int) as usize));
            }
        }
        before.lemma_edge_is_child(from as int, to as int);
        assert(!before@.has_edge(from as int, to as int));
        assert(after@.children =~= before@.children.update(
            from as int,
            before@.children[from as int].push(to as int),
        )) by {
            assert forall|u: int| 0 <= u < n implies after@.children[u]
                == before@.children.update(
                from as int,
                before@.children[from as int].push(to as int),
            )[u] by {
                if u == from {
                    lemma_indices_push(before.children@[from as int]@, to);
                } else {
                    assert(after.children@[u] == before.children@[u]);
                }
            }
        }
        assert(after@ == before@.with_edge(from as int, to as int));
        before@.lemma_with_edge(from as int, to as int);
    }

    /// Makes the node `to` depend on the node `from`, unless that would close
    /// a cycle: then the graph stays as it is and the result is `false`.
    pub(crate) fn add_edge(&mut self, from: usize, to: usize) -> (added: bool)
        requires
            old(self).wf(),
            from < old(self)@.len(),
            to < old(self)@.len(),
        ensures
            final(self).wf(),
            added == !old(self)@.reaches(to as int, from as int),
            added ==> final(self)@ == old(self)@.with_edge(from as int, to as int),
            !added ==> final(self)@ == old(self)@,
    {
        if self.reaches(to, from) {
            return false;
        }
        let ghost before = *self;
        proof {
            before.lemma_wf();
        }
        if list_contains(&self.parents[to], from) {
            proof {
                before.lemma_edge_is_child(from as int, to as int);
                assert(before@.has_edge(from as int, to as int));
            }
            return true;
        }
        self.parents[to].push(from);
        self.children[from].push(to);
        proof {
            Self::lemma_edge_added(before, *self, from, to);
        }
        true
    }
}

/// Whether `list` holds `x`.
fn list_contains(list: &Vec<usize>, x: usize) -> (found: bool)
    ensures
        found == list@.contains(x),
{
    let mut i: usize = 0;
    while i < list.len()
        invariant
            i <= list.len(),
            forall|j: int| 0 <= j < i ==> list@[j] != x,
        decreases list.len() - i,
    {
        if list[i] == x {
            return true;
        }
        i = i + 1;
    }
    false
}

} // verus!
