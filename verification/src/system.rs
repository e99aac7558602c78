//! Systems: what performs the logic of a tick.

use crate::archetypes::Archetypes;
use crate::filter::{in_ascending_order, picked, AccessView, ComponentFilter};
use crate::query::QueryGenerator;
use vstd::prelude::*;

verus! {

/// A system is what performs the actual logic within an ECS. It operates on a subset of entities
/// that match a particular archetype. `C` is the type of a stored component.
pub trait System<C> {
    /// The accesses that the system asks for. A system that does not say
    /// leaves them open.
    open spec fn accesses(&self) -> Seq<AccessView> {
        arbitrary()
    }

    /// What one iteration of the system may do: `self` is the system before
    /// the iteration and `after` the system after it, `all` and `writes` are
    /// the archetypes of what its queries may touch and may write, and
    /// `before` and `then` are the registry before and after it. A system
    /// that does not say may do anything.
    open spec fn ticks(
        &self,
        after: &Self,
        all: Seq<int>,
        writes: Seq<int>,
        before: Archetypes<C>,
        then: Archetypes<C>,
    ) -> bool {
        true
    }

    /// What subset of components the system is going to operate on. The
    /// dispatcher asks once, when the system is registered.
    fn components(&self) -> (r: ComponentFilter)
        ensures
            r@ == self.accesses(),
    ;

    /// Runs a single iteration of the system. The queries that the system
    /// makes come from `generator`, which allows what `components` asked for.
    /// The registry is consistent, nobody is writing a row of entities, and
    /// its entities can be counted: so the system can make its queries.
    fn tick(&mut self, generator: QueryGenerator, archetypes: &mut Archetypes<C>)
        requires
            generator.all() == in_ascending_order(picked(old(self).accesses(), true, true)),
            generator.writes() == in_ascending_order(picked(old(self).accesses(), false, true)),
            old(archetypes).wf(),
            old(archetypes).entities_readable(),
            old(archetypes).countable(),
        ensures
            old(self).ticks(
                final(self),
                generator.all(),
                generator.writes(),
                *old(archetypes),
                *final(archetypes),
            ),
    ;
}

/// A system as the dispatcher's workers see it.
pub trait GenericSystem<C> {
    /// What one iteration of the system may do to the registry: `self` is
    /// the system before the iteration, `before` and `then` are the registry
    /// before and after it.
    spec fn generic_ticks(&self, before: Archetypes<C>, then: Archetypes<C>) -> bool;

    /// Runs a single iteration of the system on the registry, which is
    /// consistent, with no row of entities being written and with entities
    /// that can be counted.
    fn generic_tick(&mut self, archetypes: &mut Archetypes<C>)
        requires
            old(archetypes).wf(),
            old(archetypes).entities_readable(),
            old(archetypes).countable(),
        ensures
            old(self).generic_ticks(*old(archetypes), *final(archetypes)),
    ;
}

impl<C, T: System<C>> GenericSystem<C> for T {
    /// One iteration of a system is its tick with the generator of its own
    /// accesses: its queries may touch every component type that it asked
    /// for, and may write those that it asked to write.
    open spec fn generic_ticks(&self, before: Archetypes<C>, then: Archetypes<C>) -> bool {
        exists|after: T|
            #[trigger] self.ticks(
                &after,
                in_ascending_order(picked(self.accesses(), true, true)),
                in_ascending_order(picked(self.accesses(), false, true)),
                before,
                then,
            )
    }

    fn generic_tick(&mut self, archetypes: &mut Archetypes<C>) {
        let ghost system = *self;
        let ghost registry = *archetypes;
        let filter = self.components();
        let generator = QueryGenerator::new(&filter);
        self.tick(generator, archetypes);
        assert(system.ticks(
            &*self,
            in_ascending_order(picked(system.accesses(), true, true)),
            in_ascending_order(picked(system.accesses(), false, true)),
            registry,
            *archetypes,
        ));
    }
}

} // verus!
