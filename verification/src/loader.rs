//! Loading a configuration: validating its declarations, inferring the
//! dependencies of each entity and assembling the dependency graph.

use vstd::prelude::*;
use vstd::hash_map::StringHashMap;
use vstd::hash_set::StringHashSet;
use crate::dag::UniqueDag;
use crate::error::{
    PlanError,
    Failure,
    duplicate_name,
    duplicate_name_message,
    invalid_block_kind,
    invalid_label_count,
    label_count_message,
};
use crate::extract::{dedup, find_variables, value_has_directive, value_references};
use crate::graph::Graph;
use crate::laws::lemma_load_grows;
use crate::syntax::{Value, names_of};

verus! {

/// The kinds of build entity.
#[derive(Debug, Clone, Copy, PartialEq, Eq)]
pub enum EntityKind {
    /// A command to run.
    Command,
    /// A file to produce.
    File,
    /// A content store to fill.
    Store,
}

/// A labelled block of the configuration.
#[derive(Debug, PartialEq, Eq)]
pub struct Block {
    /// The word that opens the block: the kind of entity, or `defaults`.
    pub identifier: String,
    /// The labels that follow the identifier; an entity carries one, its name.
    pub labels: Vec<String>,
    /// What the block defines.
    pub body: Value,
}

/// A bare `key = value` of the configuration.
#[derive(Debug, PartialEq, Eq)]
pub struct Attribute {
    /// The key, which names the entity.
    pub key: String,
    /// What the attribute defines.
    pub value: Value,
}

/// A top-level declaration.
#[derive(Debug, PartialEq, Eq)]
pub enum Structure {
    /// A block.
    Block(Block),
    /// An attribute.
    Attribute(Attribute),
}

/// What is needed to build one entity.
pub struct Recipe {
    /// The variables that the build sees.
    pub env: StringHashMap<String>,
    /// The inputs of the build.
    pub inputs: Vec<String>,
    /// Whether the entity is a store.
    pub is_store: bool,
    /// The name of the entity.
    pub name: String,
    /// Whether the build may use the network.
    pub network: bool,
    /// The script to run.
    pub script: String,
    /// The shell that runs the script, with its arguments.
    pub shell: Vec<String>,
}

/// The kind of entity that a block identifier stands for, if any.
pub open spec fn kind_of(identifier: Seq<char>) -> Option<EntityKind> {
    if identifier == "command"@ {
        Some(EntityKind::Command)
    } else if identifier == "file"@ {
        Some(EntityKind::File)
    } else if identifier == "store"@ {
        Some(EntityKind::Store)
    } else {
        None
    }
}

/// Whether a block identifier opens the block of configuration-wide defaults,
/// which declares no entity.
pub open spec fn is_defaults(identifier: Seq<char>) -> bool {
    identifier == "defaults"@
}

/// The name of the entity that a block declares, or why the block is refused:
/// its kind is checked first, then the number of its labels.
pub open spec fn block_name(block: Block) -> Result<Seq<char>, Failure> {
    if kind_of(block.identifier@) is None {
        Err(Failure::InvalidBlockKind(block.identifier@))
    } else if block.labels@.len() != 1 {
        Err(Failure::InvalidLabelCount(label_count_message(block.identifier@)))
    } else {
        Ok(block.labels@[0]@)
    }
}

/// What a load has gathered so far.
pub struct Loaded {
    /// The dependency graph.
    pub graph: Graph,
    /// The names of the entities declared.
    pub declared: Set<Seq<char>>,
}

impl Loaded {
    /// Nothing loaded yet.
    pub open spec fn empty() -> Loaded {
        Loaded { graph: Graph::empty(), declared: Set::empty() }
    }
}

/// What loading the entity `name` with its definition makes of `state`. A
/// name declared before is refused first, then a directive in the definition,
/// then a dependency that closes a cycle.
pub open spec fn load_entity(state: Loaded, name: Seq<char>, definition: Value) -> Result<
    Loaded,
    Failure,
> {
    if state.declared.contains(name) {
        Err(Failure::DuplicateName(duplicate_name_message(name)))
    } else if value_has_directive(definition) {
        Err(Failure::UnsupportedTemplateDirective)
    } else {
        let (graph, ok) = state.graph.with_entity(name, dedup(value_references(definition)));
        if ok {
            Ok(Loaded { graph, declared: state.declared.insert(name) })
        } else {
            Err(Failure::Cycle)
        }
    }
}

/// What loading one declaration makes of `state`. A `defaults` block is
/// passed over; any other block is validated and declares the entity that its
/// label names; an attribute declares the entity that its key names.
pub open spec fn load_declaration(state: Loaded, declaration: Structure) -> Result<
    Loaded,
    Failure,
> {
    match declaration {
        Structure::Block(block) => if is_defaults(block.identifier@) {
            Ok(state)
        } else {
            match block_name(block) {
                Ok(name) => load_entity(state, name, block.body),
                Err(failure) => Err(failure),
            }
        },
        Structure::Attribute(attribute) => load_entity(state, attribute.key@, attribute.value),
    }
}

/// What loading the declarations of `body` in order gives: the graph and the
/// declared names, or the first failure.
pub open spec fn load(body: Seq<Structure>) -> Result<Loaded, Failure>
    decreases body.len(),
{
    if body.len() == 0 {
        Ok(Loaded::empty())
    } else {
        match load(body.drop_last()) {
            Ok(state) => load_declaration(state, body.last()),
            Err(failure) => Err(failure),
        }
    }
}

/// A load that has failed on the first `failed` declarations fails in the
/// same way on all of them.
pub proof fn lemma_load_fails_early(body: Seq<Structure>, failed: int)
    requires
        0 <= failed <= body.len(),
        load(body.take(failed)) is Err,
    ensures
        load(body) == load(body.take(failed)),
    decreases body.len() - failed,
{
    if failed < body.len() {
        assert(body.take(failed + 1).drop_last() =~= body.take(failed));
        lemma_load_fails_early(body, failed + 1);
    } else {
        assert(body.take(failed) =~= body);
    }
}

/// Whether a block identifier opens the block of configuration-wide defaults,
/// whose body is never read.
pub fn opens_defaults(identifier: &String) -> (defaults: bool)
    ensures
        defaults == is_defaults(identifier@),
{
    *identifier == String::from_str("defaults")
}

/// The kind of entity that a block identifier stands for, if any.
pub fn entity_kind(identifier: &String) -> (kind: Option<EntityKind>)
    ensures
        kind == kind_of(identifier@),
{
    if *identifier == String::from_str("command") {
        Some(EntityKind::Command)
    } else if *identifier == String::from_str("file") {
        Some(EntityKind::File)
    } else if *identifier == String::from_str("store") {
        Some(EntityKind::Store)
    } else {
        None
    }
}

/// Checks that a block declares an entity, and returns the entity's name.
///
/// The identifier must be `command`, `file` or `store`, else the block is
/// refused as of an invalid kind. The block must then carry exactly one
/// label, its name.
pub fn validate_block_type(block: &Block) -> (r: Result<String, PlanError>)
    ensures
        match block_name(*block) {
            Ok(name) => r matches Ok(found) && found@ == name,
            Err(failure) => r matches Err(e) && e@ == failure,
        },
{
    if entity_kind(&block.identifier).is_none() {
        return Err(invalid_block_kind(block.identifier.as_str()));
    }
    if block.labels.len() != 1 {
        return Err(invalid_label_count(block.identifier.as_str()));
    }
    Ok(block.labels[0].clone())
}

/// The recipe that a block starts from: the entity's name and whether it is a
/// store; everything else is still empty.
pub fn block_to_recipe(block: &Block) -> (r: Result<Recipe, PlanError>)
    ensures
        match block_name(*block) {
            Ok(name) => {
                &&& r matches Ok(recipe)
                &&& recipe.name@ == name
                &&& recipe.is_store == (block.identifier@ == "store"@)
                &&& recipe.env@ == Map::<Seq<char>, String>::empty()
                &&& recipe.inputs@.len() == 0
                &&& !recipe.network
                &&& recipe.script@.len() == 0
                &&& recipe.shell@.len() == 0
            },
            Err(failure) => r matches Err(e) && e@ == failure,
        },
{
    let name = match validate_block_type(block) {
        Ok(name) => name,
        Err(e) => {
            return Err(e);
        },
    };
    Ok(
        Recipe {
            env: StringHashMap::new(),
            inputs: Vec::new(),
            is_store: block.identifier == String::from_str("store"),
            name,
            network: false,
            script: String::new(),
            shell: Vec::new(),
        },
    )
}

/// Loads the entity `name` with its definition into the graph.
fn add_declared(
    dag: &mut UniqueDag,
    name_set: &mut StringHashSet,
    name: String,
    definition: &Value,
) -> (r: Result<(), PlanError>)
    requires
        old(dag).wf(),
    ensures
        match load_entity(
            Loaded { graph: old(dag)@, declared: old(name_set)@ },
            name@,
            *definition,
        ) {
            Ok(state) => r is Ok && final(dag).wf() && final(dag)@ == state.graph
                && final(name_set)@ == state.declared,
            Err(failure) => r matches Err(e) && e@ == failure,
        },
{
    if name_set.contains(name.as_str()) {
        return Err(duplicate_name(name.as_str()));
    }
    let variables = match find_variables(definition) {
        Ok(variables) => variables,
        Err(e) => {
            return Err(e);
        },
    };
    name_set.insert(name.clone());
    dag.add_entity(name, variables)
}

/// Loads a configuration: the dependency graph of the entities that `body`
/// declares.
///
/// The declarations are taken in order. The first one that is refused ends
/// the load with its error, and nothing of the graph is handed out.
pub fn parse_body(body: Vec<Structure>) -> (r: Result<UniqueDag, PlanError>)
    ensures
        match load(body@) {
            Ok(state) => r matches Ok(dag) && dag.wf() && dag@ == state.graph,
            Err(failure) => r matches Err(e) && e@ == failure,
        },
{
    let mut dag = UniqueDag::new();
    let mut name_set = StringHashSet::new();
    let mut i: usize = 0;
    proof {
        assert(body@.take(0) =~= Seq::empty());
    }
    while i < body.len()
        invariant
            i <= body.len(),
            dag.wf(),
            load(body@.take(i as int)) == Ok::<Loaded, Failure>(
                Loaded { graph: dag@, declared: name_set@ },
            ),
        decreases body.len() - i,
    {
        proof {
            assert(body@.take(i + 1).drop_last() =~= body@.take(i as int));
            assert(body@.take(i + 1).last() == body@[i as int]);
        }
        let loaded = match &body[i] {
            Structure::Block(block) => {
                if opens_defaults(&block.identifier) {
                    Ok(())
                } else {
                    match validate_block_type(block) {
                        Ok(name) => add_declared(&mut dag, &mut name_set, name, &block.body),
                        Err(e) => Err(e),
                    }
                }
            },
            Structure::Attribute(attribute) => add_declared(
                &mut dag,
                &mut name_set,
                attribute.key.clone(),
                &attribute.value,
            ),
        };
        match loaded {
            Ok(()) => {},
            Err(e) => {
                proof {
                    lemma_load_fails_early(body@, i + 1);
                }
                return Err(e);
            },
        }
        i = i + 1;
    }
    proof {
        assert(body@.take(body.len() as int) =~= body@);
    }
    Ok(dag)
}

/// Plans a configuration: the names of its entities, and of what they
/// reference, each once and each after all that it depends on, in the order
/// of the incremental walk over the graph that `body` loads into.
pub fn plan(body: Vec<Structure>) -> (r: Result<Vec<String>, PlanError>)
    ensures
        match load(body@) {
            Ok(state) => {
                &&& r matches Ok(visited)
                &&& state.graph.is_dependency_order(names_of(visited@))
                &&& state.graph.is_walk_order(names_of(visited@))
                &&& forall|name: Seq<char>|
                    state.declared.contains(name) ==> names_of(visited@).contains(name)
            },
            Err(failure) => r matches Err(e) && e@ == failure,
        },
{
    proof {
        if load(body@) is Ok {
            lemma_load_grows(body@, 0);
        }
    }
    match parse_body(body) {
        Ok(dag) => Ok(dag.incremental_walk(|_name: &String| {})),
        Err(e) => Err(e),
    }
}

} // verus!
