//! What holds of every load.

use vstd::prelude::*;
use crate::error::{Failure, duplicate_name_message};
use crate::extract::{dedup, lemma_dedup, value_has_directive, value_references};
use crate::graph::Graph;
use crate::loader::{
    Loaded,
    Structure,
    block_name,
    is_defaults,
    load,
    load_declaration,
    load_entity,
    lemma_load_fails_early,
};
use crate::syntax::Value;

verus! {

/// The name of the entity that a declaration declares: the label of a valid
/// block, the key of an attribute. A `defaults` block and a block that is
/// refused declare none.
pub open spec fn declared_name(declaration: Structure) -> Option<Seq<char>> {
    match declaration {
        Structure::Block(block) => if is_defaults(block.identifier@) {
            None
        } else {
            match block_name(block) {
                Ok(name) => Some(name),
                Err(_) => None,
            }
        },
        Structure::Attribute(attribute) => Some(attribute.key@),
    }
}

/// The definition that a declaration carries.
pub open spec fn definition_of(declaration: Structure) -> Value {
    match declaration {
        Structure::Block(block) => block.body,
        Structure::Attribute(attribute) => attribute.value,
    }
}

/// Whether a declaration is a block of configuration-wide defaults.
pub open spec fn declares_defaults(declaration: Structure) -> bool {
    declaration matches Structure::Block(block) && is_defaults(block.identifier@)
}

/// What a load has gathered at its end, where it succeeds.
pub open spec fn state_after(body: Seq<Structure>) -> Loaded {
    match load(body) {
        Ok(state) => state,
        Err(_) => Loaded::empty(),
    }
}

/// Whether `later` holds all that `earlier` holds: its graph under the same
/// indices, and its declared names.
pub open spec fn grows_to(earlier: Loaded, later: Loaded) -> bool {
    &&& earlier.graph.extends_to(later.graph)
    &&& earlier.declared.subset_of(later.declared)
}

/// Whether the graph of a load is well-formed, can be ranked along its edges
/// and so holds no cycle, and has a node for every declared name.
pub open spec fn consistent(state: Loaded) -> bool {
    &&& state.graph.well_formed()
    &&& state.graph.ranked()
    &&& state.graph.acyclic()
    &&& forall|name: Seq<char>| state.declared.contains(name) ==> state.graph.has_node(name)
}

/// A name occurs in a list without repetitions exactly if it occurs in the
/// list.
pub proof fn lemma_dedup_contains(names: Seq<Seq<char>>, name: Seq<char>)
    ensures
        dedup(names).contains(name) <==> names.contains(name),
{
    lemma_dedup(names);
    assert(dedup(names).to_set().contains(name) <==> names.to_set().contains(name));
}

/// Loading an entity keeps what was loaded, declares the entity, and gives
/// each name that its definition references an edge to it.
pub proof fn lemma_load_entity(state: Loaded, name: Seq<char>, definition: Value)
    requires
        consistent(state),
    ensures
        load_entity(state, name, definition) matches Ok(next) ==> {
            &&& consistent(next)
            &&& grows_to(state, next)
            &&& next.declared.contains(name)
            &&& next.graph.has_node(name)
            &&& forall|reference: Seq<char>| #[trigger]
                value_references(definition).contains(reference) ==> next.graph.has_node(
                    reference,
                ) && next.graph.has_edge(
                    next.graph.index_of(reference),
                    next.graph.index_of(name),
                )
        },
{
    if let Ok(next) = load_entity(state, name, definition) {
        let dependencies = dedup(value_references(definition));
        state.graph.lemma_with_entity(name, dependencies);
        next.graph.lemma_ranked_is_acyclic();
        assert forall|other: Seq<char>| next.declared.contains(other) implies next.graph.has_node(
            other,
        ) by {
            if other != name {
                state.graph.lemma_index_kept(next.graph, other);
            }
        }
        assert forall|reference: Seq<char>| #[trigger]
            value_references(definition).contains(reference) implies next.graph.has_node(reference)
            && next.graph.has_edge(
            next.graph.index_of(reference),
            next.graph.index_of(name),
        ) by {
            lemma_dedup_contains(value_references(definition), reference);
            let k = choose|k: int| 0 <= k < dependencies.len() && dependencies[k] == reference;
            assert(next.graph.has_node(dependencies[k]));
        }
    }
}

/// Loading a declaration keeps what was loaded.
pub proof fn lemma_load_declaration(state: Loaded, declaration: Structure)
    requires
        consistent(state),
    ensures
        load_declaration(state, declaration) matches Ok(next) ==> consistent(next) && grows_to(
            state,
            next,
        ),
{
    match declaration {
        Structure::Block(block) => {
            if !is_defaults(block.identifier@) {
                if let Ok(name) = block_name(block) {
                    lemma_load_entity(state, name, block.body);
                }
            }
        },
        Structure::Attribute(attribute) => {
            lemma_load_entity(state, attribute.key@, attribute.value);
        },
    }
}

/// A load that succeeds has succeeded on every prefix of the declarations,
/// and holds at the end all that it held after the prefix. At every point
/// its graph is well-formed and free of cycles, and every declared entity has
/// a node in it.
pub proof fn lemma_load_grows(body: Seq<Structure>, upto: int)
    requires
        0 <= upto <= body.len(),
        load(body) is Ok,
    ensures
        load(body.take(upto)) is Ok,
        consistent(state_after(body)),
        consistent(state_after(body.take(upto))),
        grows_to(state_after(body.take(upto)), state_after(body)),
    decreases body.len(),
{
    if body.len() == 0 {
        assert(body.take(upto) =~= body);
        assert(Graph::empty().ranked_by(Seq::empty()));
        Graph::empty().lemma_ranked_is_acyclic();
    } else {
        let front = body.drop_last();
        lemma_load_grows(front, front.len() as int);
        assert(front.take(front.len() as int) =~= front);
        let state = state_after(front);
        lemma_load_declaration(state, body.last());
        if upto == body.len() {
            assert(body.take(upto) =~= body);
        } else {
            lemma_load_grows(front, upto);
            assert(front.take(upto) =~= body.take(upto));
            let early = state_after(body.take(upto));
            early.graph.lemma_extends_further(state.graph, state_after(body).graph);
        }
    }
}

/// In a load that succeeds, each valid declaration has declared its entity,
/// and each name that its definition references has an edge to the entity.
pub proof fn lemma_load_declares(body: Seq<Structure>, at: int)
    requires
        0 <= at < body.len(),
        load(body) is Ok,
        declared_name(body[at]) is Some,
    ensures
        ({
            let state = state_after(body);
            let name = declared_name(body[at]).unwrap();
            &&& state.declared.contains(name)
            &&& state.graph.has_node(name)
            &&& forall|reference: Seq<char>| #[trigger]
                value_references(definition_of(body[at])).contains(reference)
                    ==> state.graph.has_node(reference) && state.graph.has_edge(
                    state.graph.index_of(reference),
                    state.graph.index_of(name),
                )
        }),
{
    let name = declared_name(body[at]).unwrap();
    let definition = definition_of(body[at]);
    lemma_load_grows(body, at);
    lemma_load_grows(body, at + 1);
    let before = state_after(body.take(at));
    let after = state_after(body.take(at + 1));
    let state = state_after(body);
    assert(body.take(at + 1).drop_last() =~= body.take(at));
    assert(body.take(at + 1).last() == body[at]);
    assert(load_declaration(before, body[at]) == load_entity(before, name, definition));
    lemma_load_entity(before, name, definition);
    after.graph.lemma_index_kept(state.graph, name);
    assert forall|reference: Seq<char>| #[trigger]
        value_references(definition).contains(reference) implies state.graph.has_node(reference)
        && state.graph.has_edge(
        state.graph.index_of(reference),
        state.graph.index_of(name),
    ) by {
        after.graph.lemma_index_kept(state.graph, reference);
    }
}

/// A configuration that declares nothing but defaults loads into the empty
/// graph, and the only order of its nodes is the empty one.
pub proof fn lemma_nothing_declared(body: Seq<Structure>)
    requires
        forall|i: int| 0 <= i < body.len() ==> declares_defaults(#[trigger] body[i]),
    ensures
        load(body) == Ok::<Loaded, Failure>(Loaded::empty()),
        forall|visited: Seq<Seq<char>>| #[trigger]
            Graph::empty().is_dependency_order(visited) ==> visited.len() == 0,
    decreases body.len(),
{
    if body.len() > 0 {
        lemma_nothing_declared(body.drop_last());
        assert(declares_defaults(body[body.len() - 1]));
    }
}

/// A block of defaults changes nothing: the load is that of the
/// configuration without the block.
pub proof fn lemma_defaults_skipped(body: Seq<Structure>, at: int)
    requires
        0 <= at < body.len(),
        declares_defaults(body[at]),
    ensures
        load(body) == load(body.remove(at)),
    decreases body.len(),
{
    if at == body.len() - 1 {
        assert(body.remove(at) =~= body.drop_last());
    } else {
        lemma_defaults_skipped(body.drop_last(), at);
        assert(body.remove(at).drop_last() =~= body.drop_last().remove(at));
        assert(body.remove(at).last() == body.last());
    }
}

/// A block that is neither the defaults nor a valid entity is refused with
/// the failure of its validation: an invalid kind, else a wrong number of
/// labels, where the load has come as far as the block.
pub proof fn lemma_invalid_block_refused(body: Seq<Structure>, at: int)
    requires
        0 <= at < body.len(),
        load(body.take(at)) is Ok,
        body[at] is Block,
        !declares_defaults(body[at]),
        block_name(body[at]->Block_0) is Err,
    ensures
        load(body) == Err::<Loaded, Failure>(block_name(body[at]->Block_0)->Err_0),
{
    assert(body.take(at + 1).drop_last() =~= body.take(at));
    assert(body.take(at + 1).last() == body[at]);
    lemma_load_fails_early(body, at + 1);
}

/// A second declaration of a name is refused as a duplicate, whatever its
/// kind and its definition, where the load has come as far as the second
/// declaration.
pub proof fn lemma_duplicate_name_refused(body: Seq<Structure>, first: int, second: int)
    requires
        0 <= first < second < body.len(),
        load(body.take(second)) is Ok,
        declared_name(body[first]) is Some,
        declared_name(body[second]) == declared_name(body[first]),
    ensures
        load(body) == Err::<Loaded, Failure>(
            Failure::DuplicateName(duplicate_name_message(declared_name(body[first]).unwrap())),
        ),
{
    let prefix = body.take(second);
    assert(prefix[first] == body[first]);
    lemma_load_declares(prefix, first);
    assert(body.take(second + 1).drop_last() =~= prefix);
    assert(body.take(second + 1).last() == body[second]);
    lemma_load_fails_early(body, second + 1);
}

/// An entity whose definition references its own name is refused as a cycle,
/// where the load has come as far as its declaration and finds nothing else
/// wrong with it.
pub proof fn lemma_self_reference_refused(body: Seq<Structure>, at: int)
    requires
        0 <= at < body.len(),
        load(body.take(at)) is Ok,
        declared_name(body[at]) is Some,
        !state_after(body.take(at)).declared.contains(declared_name(body[at]).unwrap()),
        !value_has_directive(definition_of(body[at])),
        value_references(definition_of(body[at])).contains(declared_name(body[at]).unwrap()),
    ensures
        load(body) == Err::<Loaded, Failure>(Failure::Cycle),
{
    let prefix = body.take(at);
    let name = declared_name(body[at]).unwrap();
    let definition = definition_of(body[at]);
    lemma_load_grows(prefix, 0);
    let state = state_after(prefix);
    lemma_dedup_contains(value_references(definition), name);
    state.graph.lemma_self_dependency_refused(name, dedup(value_references(definition)));
    assert(body.take(at + 1).drop_last() =~= prefix);
    assert(body.take(at + 1).last() == body[at]);
    assert(load_declaration(state, body[at]) == load_entity(state, name, definition));
    lemma_load_fails_early(body, at + 1);
}

/// Of two entities whose definitions reference one another, the second is
/// refused as a cycle, where the load has come as far as its declaration and
/// finds nothing else wrong with it.
pub proof fn lemma_mutual_reference_refused(body: Seq<Structure>, first: int, second: int)
    requires
        0 <= first < second < body.len(),
        load(body.take(second)) is Ok,
        declared_name(body[first]) is Some,
        declared_name(body[second]) is Some,
        !state_after(body.take(second)).declared.contains(declared_name(body[second]).unwrap()),
        !value_has_directive(definition_of(body[second])),
        value_references(definition_of(body[first])).contains(
            declared_name(body[second]).unwrap(),
        ),
        value_references(definition_of(body[second])).contains(
            declared_name(body[first]).unwrap(),
        ),
    ensures
        load(body) == Err::<Loaded, Failure>(Failure::Cycle),
{
    let prefix = body.take(second);
    let one = declared_name(body[first]).unwrap();
    let other = declared_name(body[second]).unwrap();
    let definition = definition_of(body[second]);
    assert(prefix[first] == body[first]);
    lemma_load_declares(prefix, first);
    lemma_load_grows(prefix, 0);
    let state = state_after(prefix);
    assert(value_references(definition_of(body[first])).contains(other));
    lemma_dedup_contains(value_references(definition), one);
    state.graph.lemma_mutual_dependency_refused(
        other,
        dedup(value_references(definition)),
        one,
    );
    assert(body.take(second + 1).drop_last() =~= prefix);
    assert(body.take(second + 1).last() == body[second]);
    assert(load_declaration(state, body[second]) == load_entity(state, other, definition));
    lemma_load_fails_early(body, second + 1);
}

} // verus!
