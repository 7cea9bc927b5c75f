//! Drawing the graph: its description in the DOT language of Graphviz.

use vstd::prelude::*;
use daggy::petgraph::data::Element;
use daggy::petgraph::dot::{Config, Dot};
use crate::graph::{Graph, index_lists};
use crate::syntax::names_of;

verus! {

/// The number of nodes, and of edges, that a graph to be drawn has to stay
/// below.
pub const DRAWABLE: usize = 4294967295;

/// The DOT text of the graph that has a node for each of `names`, labelled
/// with the name and numbered in that order, and an edge from each node to
/// each of its `children`, in the order of the lists; `None` where the edges
/// form a cycle.
pub uninterp spec fn dot_text(names: Seq<Seq<char>>, children: Seq<Seq<int>>) -> Option<Seq<char>>;

/// The characters of a text that may be missing.
pub open spec fn text_of(text: Option<String>) -> Option<Seq<char>> {
    match text {
        Some(text) => Some(text@),
        None => None,
    }
}

/// The number of entries of all the lists together.
pub open spec fn edge_count(children: Seq<Seq<int>>) -> nat
    decreases children.len(),
{
    if children.len() == 0 {
        0
    } else {
        edge_count(children.drop_last()) + children.last().len()
    }
}

/// The `Debug` text of petgraph's `Dot`, configured to leave out the edge
/// labels, for the graph that `daggy::Dag::from_elements` builds from a node
/// for each name and then an edge for each entry of the lists.
///
/// daggy refuses an edge that closes a cycle, and no other: the result is
/// then `None`. It panics on an edge to a node that is missing, and petgraph
/// on more nodes or edges than its indices can number; the conditions keep
/// clear of both. The text depends on the names and the lists alone, and so
/// has a name.
#[verifier::external_body]
pub(crate) fn dot_of(names: &Vec<String>, children: &Vec<Vec<usize>>) -> (text: Option<String>)
    requires
        children.len() == names.len(),
        names.len() < DRAWABLE,
        edge_count(index_lists(children@)) < DRAWABLE,
        forall|node: int, k: int|
            0 <= node < children.len() && 0 <= k < children@[node].len() ==> (
            #[trigger] children@[node]@[k]) < names.len(),
    ensures
        text_of(text) == dot_text(names_of(names@), index_lists(children@)),
        text is None ==> !(Graph {
            names: names_of(names@),
            children: index_lists(children@),
        }).acyclic(),
{
    let nodes = names.iter().map(|name| Element::Node { weight: name.clone() });
    let edges = children.iter().enumerate().flat_map(|(source, list)| {
        list.iter().map(move |&target| Element::Edge { source, target, weight: () })
    });
    let dag = daggy::Dag::<String, ()>::from_elements(nodes.chain(edges)).ok()?;
    Some(format!("{:?}", Dot::with_config(dag.graph(), &[Config::EdgeNoLabel])))
}

/// The number of entries of all the lists together, if that is below
/// `DRAWABLE`.
pub(crate) fn edge_total(children: &Vec<Vec<usize>>) -> (total: Option<usize>)
    ensures
        match total {
            Some(total) => total == edge_count(index_lists(children@)) && total < DRAWABLE,
            None => edge_count(index_lists(children@)) >= DRAWABLE,
        },
{
    let mut total: usize = 0;
    let mut i: usize = 0;
    proof {
        assert(index_lists(children@).take(0) =~= Seq::empty());
    }
    while i < children.len()
        invariant
            i <= children.len(),
            total == edge_count(index_lists(children@).take(i as int)),
            total < DRAWABLE,
        decreases children.len() - i,
    {
        proof {
            let lists = index_lists(children@);
            assert(lists.take(i + 1).drop_last() =~= lists.take(i as int));
            assert(lists.take(i + 1).last().len() == children@[i as int]@.len());
            lemma_edge_count_grows(lists, i + 1);
        }
        let more = children[i].len();
        if more >= DRAWABLE - total {
            return None;
        }
        total = total + more;
        i = i + 1;
    }
    proof {
        assert(index_lists(children@).take(children.len() as int) =~= index_lists(children@));
    }
    Some(total)
}

/// The lists together have at least as many entries as the first of them.
pub proof fn lemma_edge_count_grows(children: Seq<Seq<int>>, upto: int)
    requires
        0 <= upto <= children.len(),
    ensures
        edge_count(children.take(upto)) <= edge_count(children),
    decreases children.len() - upto,
{
    if upto < children.len() {
        assert(children.take(upto + 1).drop_last() =~= children.take(upto));
        lemma_edge_count_grows(children, upto + 1);
    } else {
        assert(children.take(upto) =~= children);
    }
}

} // verus!
