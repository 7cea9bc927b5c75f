//! Adding an entity with its dependencies to the graph.

use vstd::prelude::*;
use crate::dag::UniqueDag;
use crate::error::{PlanError, Failure};
use crate::syntax::names_of;

verus! {

impl UniqueDag {
    /// Adds the entity `name`, which depends on each of `dependency_names`.
    ///
    /// A node is created for the entity and for each dependency that has none
    /// yet, then an edge from each dependency to the entity, in the order
    /// given. The first edge that would close a cycle ends the operation with
    /// `PlanError::Cycle`; what was inserted up to then stays.
    pub fn add_entity(&mut self, name: String, dependency_names: Vec<String>) -> (r: Result<
        (),
        PlanError,
    >)
        requires
            old(self).wf(),
        ensures
            final(self).wf(),
            final(self)@ == old(self)@.with_entity(name@, names_of(dependency_names@)).0,
            r is Ok <==> old(self)@.with_entity(name@, names_of(dependency_names@)).1,
            r matches Err(e) ==> e@ == Failure::Cycle,
    {
        let target = self.ensure_node(name);
        let ghost grown = self@;
        let ghost dependencies = names_of(dependency_names@);
        let mut i: usize = 0;
        proof {
            assert(dependencies.take(0) =~= Seq::empty());
        }
        while i < dependency_names.len()
            invariant
                self.wf(),
                i <= dependency_names.len(),
                dependencies == names_of(dependency_names@),
                grown == old(self)@.with_node(name@),
                target == grown.index_of(name@),
                target < self@.len(),
                (self@, true) == grown.with_dependencies(
                    target as int,
                    dependencies.take(i as int),
                ),
            decreases dependency_names.len() - i,
        {
            let ghost lesser = self@;
            let source = self.ensure_node(dependency_names[i].clone());
            let added = self.add_edge(source, target);
            proof {
                assert(dependencies.take(i + 1).drop_last() =~= dependencies.take(i as int));
                assert(dependencies.take(i + 1).last() == dependency_names@[i as int]@);
                let step = grown.with_dependencies(target as int, dependencies.take(i + 1));
                assert(step == lesser.with_dependency(
                    target as int,
                    dependency_names@[i as int]@,
                ));
                assert(step == (self@, added));
            }
            if !added {
                proof {
                    grown.lemma_with_dependencies_stops(target as int, dependencies, i + 1);
                }
                return Err(PlanError::Cycle);
            }
            i = i + 1;
        }
        proof {
            assert(dependencies.take(dependency_names.len() as int) =~= dependencies);
        }
        Ok(())
    }
}

} // verus!
