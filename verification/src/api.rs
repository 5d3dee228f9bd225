//! The user API, patterned after the TC39 signals proposal: create states, computeds, effects
//! and actions, send and trigger signals, read values.  The closures of computeds, effects and
//! actions are held by the caller, keyed by the entity this API hands back.
use crate::framework::{
    option_view, value_result, LazySignalsData, LazySignalsError, LazySignalsResult,
};
use crate::lazy_immutable::CellView;
use crate::world::{
    created_effect, empty_node, entity_id, fresh_cell, index_of, is_node_id, sent, world_wf,
    EffectContext, LazySignalsWorld, Markers, NodeView, WorldView, MAX_ENTITIES,
};
use vstd::prelude::*;

verus! {

/// The world after spawning an entity and giving it a fresh cell holding `data`.
pub open spec fn with_state<V>(w: WorldView<V>, data: LazySignalsResult<V>) -> WorldView<V> {
    WorldView {
        nodes: w.nodes.push(NodeView { state: Some(fresh_cell(data)), ..empty_node() }),
        ..w
    }
}

/// The world after spawning a computed over `sources`: an empty cell and a request to subscribe.
pub open spec fn with_computed<V>(w: WorldView<V>, sources: Seq<u64>) -> WorldView<V> {
    WorldView {
        nodes: w.nodes.push(
            NodeView {
                state: Some(fresh_cell(LazySignalsResult { data: None, error: None })),
                computed: Some(sources),
                markers: Markers { init_dependencies: true, ..empty_node::<V>().markers },
                ..empty_node()
            },
        ),
        ..w
    }
}

/// The data value of entity `e`'s cell, if it has one.
pub open spec fn value_of<V>(w: WorldView<V>, e: u64) -> Option<V> {
    match w.nodes[index_of(e)].state {
        Some(c) => c.data.data,
        None => None,
    }
}

/// Convenience function to store a result in an entity, which must have a cell: the data is
/// replaced without notifying subscribers; true when it differs.
pub fn store_result<T: LazySignalsData>(
    data: LazySignalsResult<T>,
    entity: u64,
    world: &mut LazySignalsWorld<T>,
) -> (changed: bool)
    requires
        world_wf(old(world)@),
        is_node_id(entity, old(world)@.nodes.len() as int),
        old(world)@.nodes[index_of(entity)].state is Some,
    ensures
        world_wf(final(world)@),
        changed == (old(world)@.nodes[index_of(entity)].state.unwrap().data != data@),
        final(world)@ == (WorldView {
            nodes: old(world)@.nodes.update(
                index_of(entity),
                NodeView {
                    state: Some(
                        CellView { data: data@, ..old(world)@.nodes[index_of(entity)].state.unwrap() },
                    ),
                    ..old(world)@.nodes[index_of(entity)]
                },
            ),
            ..old(world)@
        }),
{
    world.update(entity, data)
}

/// Main signal primitive factory.
pub struct LazySignals;

impl LazySignals {
    /// Create an action (an effect that runs as an async task) on a new entity.
    pub fn action<T: LazySignalsData>(
        &self,
        sources: Vec<u64>,
        triggers: Vec<u64>,
        world: &mut LazySignalsWorld<T>,
    ) -> (entity: u64)
        requires
            world_wf(old(world)@),
            old(world)@.nodes.len() < MAX_ENTITIES,
        ensures
            entity == entity_id(old(world)@.nodes.len() as int),
            final(world)@ == created_effect(
                WorldView { nodes: old(world)@.nodes.push(empty_node()), ..old(world)@ },
                entity,
                EffectContext::Long,
                sources@,
                triggers@,
            ),
            world_wf(final(world)@),
    {
        let entity = world.spawn_empty();
        world.create_task(entity, sources, triggers);
        entity
    }

    /// Create a computed on a new entity: its function receives the data of `sources`, in
    /// order, and its result is memoized in the entity's cell.
    pub fn computed<T: LazySignalsData>(&self, sources: Vec<u64>, world: &mut LazySignalsWorld<T>) -> (entity: u64)
        requires
            world_wf(old(world)@),
            old(world)@.nodes.len() < MAX_ENTITIES,
        ensures
            entity == entity_id(old(world)@.nodes.len() as int),
            final(world)@ == with_computed(old(world)@, sources@),
            world_wf(final(world)@),
    {
        let entity = world.spawn_empty();
        let ghost spawned = world@;
        world.create_computed(entity, sources);
        proof {
            assert(world@.nodes =~= with_computed(old(world)@, sources@).nodes);
        }
        entity
    }

    /// Same as `computed`.
    pub fn computed_tuple<T: LazySignalsData>(&self, sources: Vec<u64>, world: &mut LazySignalsWorld<T>) -> (entity: u64)
        requires
            world_wf(old(world)@),
            old(world)@.nodes.len() < MAX_ENTITIES,
        ensures
            entity == entity_id(old(world)@.nodes.len() as int),
            final(world)@ == with_computed(old(world)@, sources@),
            world_wf(final(world)@),
    {
        self.computed(sources, world)
    }

    /// Create a short-lived effect on a new entity: it runs with the data of `sources` when one
    /// of them changes or one of `triggers` fires.
    pub fn effect<T: LazySignalsData>(
        &self,
        sources: Vec<u64>,
        triggers: Vec<u64>,
        world: &mut LazySignalsWorld<T>,
    ) -> (entity: u64)
        requires
            world_wf(old(world)@),
            old(world)@.nodes.len() < MAX_ENTITIES,
        ensures
            entity == entity_id(old(world)@.nodes.len() as int),
            final(world)@ == created_effect(
                WorldView { nodes: old(world)@.nodes.push(empty_node()), ..old(world)@ },
                entity,
                EffectContext::Short,
                sources@,
                triggers@,
            ),
            world_wf(final(world)@),
    {
        let entity = world.spawn_empty();
        world.create_effect(entity, sources, triggers);
        entity
    }

    /// Return an error from a computed closure.
    pub fn error<T: LazySignalsData>(error: LazySignalsError) -> (r: LazySignalsResult<T>)
        ensures
            r@ == (LazySignalsResult::<T::V> { data: None, error: Some(error) }),
    {
        LazySignalsResult { data: None, error: Some(error) }
    }

    /// Alias for `value`.
    pub fn get<T: LazySignalsData>(&self, immutable: u64, world: &LazySignalsWorld<T>) -> (r: Option<T>)
        requires
            is_node_id(immutable, world@.nodes.len() as int),
        ensures
            option_view(r) == value_of(world@, immutable),
    {
        self.value(immutable, world)
    }

    /// The error held by the entity's cell, if any.
    pub fn get_error<T: LazySignalsData>(
        &self,
        immutable: u64,
        world: &LazySignalsWorld<T>,
    ) -> (r: Option<LazySignalsError>)
        requires
            is_node_id(immutable, world@.nodes.len() as int),
        ensures
            r == match world@.nodes[index_of(immutable)].state {
                Some(c) => c.data.error,
                None => None,
            },
    {
        world.cell_error(immutable)
    }

    /// Return an optional value from a computed closure.
    pub fn option<T: LazySignalsData>(data: Option<T>) -> (r: LazySignalsResult<T>)
        ensures
            r@ == (LazySignalsResult::<T::V> { data: option_view(data), error: None }),
    {
        LazySignalsResult { data, error: None }
    }

    /// Alias for `value`.
    pub fn read<T: LazySignalsData>(&self, immutable: u64, world: &LazySignalsWorld<T>) -> (r: Option<T>)
        requires
            is_node_id(immutable, world@.nodes.len() as int),
        ensures
            option_view(r) == value_of(world@, immutable),
    {
        self.value(immutable, world)
    }

    /// Return a value from a computed closure.
    pub fn result<T: LazySignalsData>(data: T) -> (r: LazySignalsResult<T>)
        ensures
            r@ == value_result(data@),
    {
        LazySignalsResult { data: Some(data), error: None }
    }

    /// Send a signal to be applied during the next batch.
    pub fn send<T: LazySignalsData>(&self, signal: u64, data: T, world: &mut LazySignalsWorld<T>)
        requires
            world_wf(old(world)@),
        ensures
            final(world)@ == sent(old(world)@, signal, data@, false),
            world_wf(final(world)@),
    {
        world.send_signal(signal, data);
    }

    /// Send a signal to be applied during the next batch regardless of whether the data changed.
    pub fn send_and_trigger<T: LazySignalsData>(
        &self,
        signal: u64,
        data: T,
        world: &mut LazySignalsWorld<T>,
    )
        requires
            world_wf(old(world)@),
        ensures
            final(world)@ == sent(old(world)@, signal, data@, true),
            world_wf(final(world)@),
    {
        world.trigger_signal(signal, data);
    }

    /// Create a state holding `data` on a new entity: the entry point for data into the
    /// structure.
    pub fn state<T: LazySignalsData>(&self, data: T, world: &mut LazySignalsWorld<T>) -> (entity: u64)
        requires
            world_wf(old(world)@),
            old(world)@.nodes.len() < MAX_ENTITIES,
        ensures
            entity == entity_id(old(world)@.nodes.len() as int),
            final(world)@ == with_state(old(world)@, value_result(data@)),
            world_wf(final(world)@),
    {
        let entity = world.spawn_empty();
        world.create_state(entity, data);
        proof {
            assert(world@.nodes =~= with_state(old(world)@, value_result(data@)).nodes);
        }
        entity
    }

    /// Same as `state`.
    pub fn state_tuple<T: LazySignalsData>(&self, data: T, world: &mut LazySignalsWorld<T>) -> (entity: u64)
        requires
            world_wf(old(world)@),
            old(world)@.nodes.len() < MAX_ENTITIES,
        ensures
            entity == entity_id(old(world)@.nodes.len() as int),
            final(world)@ == with_state(old(world)@, value_result(data@)),
            world_wf(final(world)@),
    {
        self.state(data, world)
    }

    /// Trigger a signal of the unit type.
    pub fn trigger(&self, signal: u64, world: &mut LazySignalsWorld<()>)
        requires
            world_wf(old(world)@),
        ensures
            final(world)@ == sent(old(world)@, signal, (), true),
            world_wf(final(world)@),
    {
        world.trigger_signal(signal, ());
    }

    /// The data value of the entity's cell, if it has one.
    pub fn value<T: LazySignalsData>(&self, immutable: u64, world: &LazySignalsWorld<T>) -> (r: Option<T>)
        requires
            is_node_id(immutable, world@.nodes.len() as int),
        ensures
            option_view(r) == value_of(world@, immutable),
    {
        world.cell_value(immutable)
    }
}

} // verus!
