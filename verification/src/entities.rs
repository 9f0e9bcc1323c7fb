//! Entities and their incremental construction.

use std::any::TypeId;
use std::cell::RefCell;
use std::collections::HashMap;
use std::rc::Rc;
use vstd::prelude::*;

use crate::bitfields::BitField;
use crate::components::{component_id, Component, ComponentCell};
use crate::worlds::{EcsErr, World};

verus! {

broadcast use vstd::std_specs::hash::group_hash_axioms;

/// The counter value that names an entity.
pub type EntityId = usize;

/// An opaque token that names one entity of a world.
#[derive(Clone, Copy, Hash, PartialEq, Eq, Default, Debug, Structural)]
pub struct Entity(pub EntityId);

/// What an entity under construction will carry: its mask and, for each
/// component bit of the mask, the cell that goes into that bit's column.
/// Nothing of it is in the world before the builder is built.
pub struct EntityDraft<B> {
    entity: Entity,
    bit_mask: B,
    cells: HashMap<usize, ComponentCell>,
}

/// Builds one entity of a world step by step.  The builder has the world
/// to itself while it lives.
pub struct EntityBuilder<'world, B: BitField, F: BitField, P> {
    pub draft: EntityDraft<B>,
    pub world: &'world mut World<B, F, P>,
}

impl<B: BitField> EntityDraft<B> {
    /// The entity that is being built.
    pub closed spec fn entity(&self) -> Entity {
        self.entity
    }

    /// The bits of the mask that the entity will have.
    pub closed spec fn bits(&self) -> Set<nat> {
        self.bit_mask.bits()
    }

    /// The cells that the entity will carry, by bit position.
    pub closed spec fn cells(&self) -> Map<usize, ComponentCell> {
        self.cells@
    }

    /// The draft fits `world`: the entity has the counter value that the
    /// world gave out last and is not alive yet, there is a cell for each
    /// component bit of the mask and for nothing else, and the other bits
    /// of the mask are flag bits.
    pub open spec fn wf<F: BitField, P: PartialEq>(&self, world: World<B, F, P>) -> bool {
        &&& world.wf()
        &&& !world.alive(self.entity())
        &&& self.entity().0 + 1 == world.next_id()
        &&& forall|c: usize| #[trigger]
            self.cells().contains_key(c) <==> c < world.component_count() && self.bits().contains(
                c as nat,
            )
        &&& forall|bit: nat| #[trigger]
            self.bits().contains(bit) ==> bit < world.component_count() || world.schema().covers(
                (bit - world.component_count()) as nat,
            )
    }

    /// The draft after `cell` was added for the component at `position`.
    pub open spec fn gains_cell(&self, position: nat, cell: ComponentCell, after: Self) -> bool {
        &&& after.entity() == self.entity()
        &&& after.bits() == self.bits().insert(position)
        &&& after.cells() == self.cells().insert(position as usize, cell)
    }

    /// The draft after `cell` was added as the component of the type `id`,
    /// which `world` has registered.
    pub open spec fn gains_component<F: BitField, P: PartialEq>(
        &self,
        world: World<B, F, P>,
        id: TypeId,
        cell: ComponentCell,
        after: Self,
    ) -> bool {
        world.schema().position(id) matches Some(position) && self.gains_cell(position, cell, after)
    }

    /// The draft after `bits` were set on the mask.
    pub open spec fn gains_bits(&self, bits: Set<nat>, after: Self) -> bool {
        &&& after.entity() == self.entity()
        &&& after.bits() == self.bits().union(bits)
        &&& after.cells() == self.cells()
    }
}

impl<'world, B: BitField, F: BitField, P: PartialEq> EntityBuilder<'world, B, F, P> {
    /// A builder for the entity with the counter value `id`, which
    /// carries nothing yet.
    pub(crate) fn new(id: EntityId, world: &'world mut World<B, F, P>) -> (builder: Self)
        ensures
            builder.draft.entity() == Entity(id),
            builder.draft.bits() == Set::<nat>::empty(),
            builder.draft.cells() == Map::<usize, ComponentCell>::empty(),
            *builder.world == *old(world),
            *final(builder.world) == *final(world),
    {
        EntityBuilder {
            draft: EntityDraft { entity: Entity(id), bit_mask: B::zero(), cells: HashMap::new() },
            world,
        }
    }

    /// Adds a new cell that holds `component` to what the entity will
    /// carry.
    pub fn with_component<C: Component>(self, component: C) -> (builder: Result<Self, EcsErr<B, F, P>>)
        requires
            self.draft.wf(*self.world),
        ensures
            match builder {
                Ok(builder) => {
                    &&& builder.draft.wf(*builder.world)
                    &&& *builder.world == *old(self.world)
                    &&& *final(builder.world) == *final(self.world)
                    &&& exists|id: TypeId, cell: ComponentCell|
                        self.draft.gains_component(*old(self.world), id, cell, builder.draft)
                },
                Err(error) => {
                    &&& *final(self.world) == *old(self.world)
                    &&& exists|id: TypeId| old(self.world).lacks_component(id, error)
                },
            },
    {
        let id = component_id::<C>();
        let cell = ComponentCell::new(component);
        let builder = self.with_cell(&id, cell);
        proof {
            if builder is Ok {
                assert(self.draft.gains_component(
                    *old(self.world),
                    id,
                    cell,
                    (builder->Ok_0).draft,
                ));
            } else {
                assert(old(self.world).lacks_component(id, builder->Err_0));
            }
        }
        builder
    }

    /// Adds the shared cell `component` to what the entity will carry.
    pub fn with_shared_component<C: Component>(self, component: &Rc<RefCell<C>>) -> (builder: Result<
        Self,
        EcsErr<B, F, P>,
    >)
        requires
            self.draft.wf(*self.world),
        ensures
            match builder {
                Ok(builder) => {
                    &&& builder.draft.wf(*builder.world)
                    &&& *builder.world == *old(self.world)
                    &&& *final(builder.world) == *final(self.world)
                    &&& exists|id: TypeId, cell: ComponentCell|
                        self.draft.gains_component(*old(self.world), id, cell, builder.draft)
                },
                Err(error) => {
                    &&& *final(self.world) == *old(self.world)
                    &&& exists|id: TypeId| old(self.world).lacks_component(id, error)
                },
            },
    {
        let id = component_id::<C>();
        let cell = ComponentCell::erase(component);
        let builder = self.with_cell(&id, cell);
        proof {
            if builder is Ok {
                assert(self.draft.gains_component(
                    *old(self.world),
                    id,
                    cell,
                    (builder->Ok_0).draft,
                ));
            } else {
                assert(old(self.world).lacks_component(id, builder->Err_0));
            }
        }
        builder
    }

    /// Adds `cell`, as the component of the type whose identity is `id`,
    /// to what the entity will carry.  A cell added before for that type
    /// is replaced.
    pub fn with_cell(self, id: &TypeId, cell: ComponentCell) -> (builder: Result<Self, EcsErr<B, F, P>>)
        requires
            self.draft.wf(*self.world),
        ensures
            match old(self.world).schema().position(*id) {
                Some(position) => {
                    &&& builder matches Ok(builder)
                    &&& builder.draft.wf(*builder.world)
                    &&& *builder.world == *old(self.world)
                    &&& *final(builder.world) == *final(self.world)
                    &&& self.draft.gains_cell(position, cell, builder.draft)
                },
                None => {
                    &&& builder matches Err(error)
                    &&& error == EcsErr::<B, F, P>::MissingComponent(*id)
                    &&& *final(self.world) == *old(self.world)
                },
            },
    {
        let c = match self.world.component_column(id) {
            Some(c) => c,
            None => {
                return Err(EcsErr::MissingComponent(*id));
            },
        };
        let width = B::width();
        let mut builder = self;
        builder.draft.bit_mask.set_bit_mask(B::bit(c as u8));
        builder.draft.cells.insert(c, cell);
        proof {
            assert(builder.draft.bits() =~= self.draft.bits().insert(c as nat));
            assert(builder.draft.cells() == self.draft.cells().insert(c, cell));
            assert forall|k: usize| #[trigger]
                builder.draft.cells().contains_key(k) <==> k < builder.world.component_count()
                    && builder.draft.bits().contains(k as nat) by {
                assert(self.draft.cells().contains_key(k) <==> k < self.world.component_count()
                    && self.draft.bits().contains(k as nat));
            }
        }
        Ok(builder)
    }

    /// Sets the bits of `flag`, or of its variant, on the mask that the
    /// entity will have.
    pub fn with_flag(self, flag: F, variant: Option<B>) -> (builder: Result<Self, EcsErr<B, F, P>>)
        requires
            self.draft.wf(*self.world),
        ensures
            match old(self.world).flag_bits(flag, variant) {
                Some(bits) => {
                    &&& builder matches Ok(builder)
                    &&& builder.draft.wf(*builder.world)
                    &&& *builder.world == *old(self.world)
                    &&& *final(builder.world) == *final(self.world)
                    &&& self.draft.gains_bits(bits, builder.draft)
                },
                None => {
                    &&& builder matches Err(error)
                    &&& error == EcsErr::<B, F, P>::MissingFlag(flag)
                    &&& *final(self.world) == *old(self.world)
                },
            },
    {
        let bit_mask = match self.world.flag_bit_mask(flag, variant) {
            Ok(bit_mask) => bit_mask,
            Err(error) => {
                return Err(error);
            },
        };
        proof {
            self.world.lemma_flag_bits(flag, variant);
        }
        let mut builder = self;
        builder.draft.bit_mask.set_bit_mask(bit_mask);
        proof {
            assert(builder.draft.cells() == self.draft.cells());
            assert forall|k: usize| #[trigger]
                builder.draft.cells().contains_key(k) <==> k < builder.world.component_count()
                    && builder.draft.bits().contains(k as nat) by {
                assert(self.draft.cells().contains_key(k) <==> k < self.world.component_count()
                    && self.draft.bits().contains(k as nat));
            }
            assert forall|bit: nat| #[trigger] builder.draft.bits().contains(bit) implies bit
                < builder.world.component_count() || builder.world.schema().covers(
                (bit - builder.world.component_count()) as nat,
            ) by {
                if !bit_mask.bits().contains(bit) {
                    assert(self.draft.bits().contains(bit));
                }
            }
        }
        Ok(builder)
    }

    /// Makes the entity alive in the world, with its mask and its cells
    /// at once, and returns it.
    pub fn build(self) -> (entity: Entity)
        requires
            self.draft.wf(*self.world),
        ensures
            entity == self.draft.entity(),
            old(self.world).commits(
                *final(self.world),
                entity,
                self.draft.bits(),
                self.draft.cells(),
            ),
    {
        let EntityBuilder { draft, world } = self;
        proof {
            assert(draft.cells() == draft.cells@ && draft.bits() == draft.bit_mask.bits());
            assert forall|c: usize| #[trigger]
                draft.cells@.contains_key(c) <==> c < world.component_count()
                    && draft.bit_mask.bits().contains(c as nat) by {
                assert(draft.cells().contains_key(c) <==> c < world.component_count()
                    && draft.bits().contains(c as nat));
            }
            assert forall|bit: nat| #[trigger] draft.bit_mask.bits().contains(bit) implies bit
                < world.component_count() || world.schema().covers(
                (bit - world.component_count()) as nat,
            ) by {
                assert(draft.bits().contains(bit));
            }
        }
        world.add_entity(draft.entity, draft.bit_mask, draft.cells);
        draft.entity
    }
}

} // verus!
