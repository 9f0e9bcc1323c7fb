//! Queries: a filter mask built step by step, and the snapshot of the
//! entities that matched it.

use std::any::TypeId;
use std::cell::RefCell;
use std::rc::Rc;
use vstd::prelude::*;

use crate::bitfields::BitField;
use crate::components::{component_id, Component};
use crate::entities::Entity;
use crate::worlds::{EcsErr, World};

verus! {

/// The entities that matched a filter when the query was built.  The list
/// does not follow later changes of the world.
pub struct Query<'world, B: BitField, F: BitField, P> {
    entities: Vec<Entity>,
    world: &'world World<B, F, P>,
}

/// Collects the bits that an entity must have to match.
pub struct QueryBuilder<'world, B: BitField, F: BitField, P> {
    pub(crate) bit_mask: B,
    pub(crate) world: &'world World<B, F, P>,
}

impl<'world, B: BitField, F: BitField, P: PartialEq> Query<'world, B, F, P> {
    /// The entities of the snapshot.
    pub closed spec fn entities(&self) -> Seq<Entity> {
        self.entities@
    }

    /// The world that was queried.
    pub closed spec fn world(&self) -> World<B, F, P> {
        *self.world
    }

    /// For each entity of the snapshot, the shared handle to its component
    /// of type `C`.  Fails when one of them carries none, whether or not
    /// the filter asked for `C`.
    pub fn get_components<C: Component>(&self) -> (components: Result<
        Vec<Rc<RefCell<C>>>,
        EcsErr<B, F, P>,
    >)
        requires
            self.world().wf(),
        ensures
            exists|id: TypeId| self.world().reads_group(id, self.entities(), components),
    {
        let group = self.entities.as_slice();
        assert(group@ == self.entities());
        self.world.get_entity_group_component(group)
    }

    /// The entities of the snapshot.
    pub fn get_entities(&self) -> (entities: Vec<Entity>)
        ensures
            entities@ == self.entities(),
    {
        let mut entities: Vec<Entity> = Vec::new();
        let mut j: usize = 0;
        while j < self.entities.len()
            invariant
                j <= self.entities@.len(),
                entities@ == self.entities@.take(j as int),
            decreases self.entities@.len() - j,
        {
            entities.push(self.entities[j]);
            proof {
                assert(self.entities@.take(j + 1) =~= self.entities@.take(j as int).push(
                    self.entities@[j as int],
                ));
            }
            j = j + 1;
        }
        proof {
            assert(self.entities@.take(j as int) =~= self.entities@);
        }
        entities
    }
}

impl<'world, B: BitField, F: BitField, P: PartialEq> QueryBuilder<'world, B, F, P> {
    /// The bits that an entity must have to match.
    pub closed spec fn filter(&self) -> Set<nat> {
        self.bit_mask.bits()
    }

    /// The world that will be queried.
    pub closed spec fn world(&self) -> World<B, F, P> {
        *self.world
    }

    /// The builder after `bits` were added to the filter.
    pub open spec fn requires_bits(&self, bits: Set<nat>, after: Self) -> bool {
        &&& after.world() == self.world()
        &&& after.filter() == self.filter().union(bits)
    }

    /// A builder with an empty filter.
    pub(crate) fn new(world: &'world World<B, F, P>) -> (builder: Self)
        ensures
            builder.world() == *world,
            builder.filter() == Set::<nat>::empty(),
    {
        QueryBuilder { bit_mask: B::zero(), world }
    }

    /// Asks for entities that carry a component of type `C`.
    pub fn with_component<C: Component>(self) -> (builder: Result<Self, EcsErr<B, F, P>>)
        requires
            self.world().wf(),
        ensures
            exists|id: TypeId|
                match #[trigger] self.world().component_bits(id) {
                    Some(bits) => builder matches Ok(builder) && self.requires_bits(bits, builder),
                    None => builder matches Err(error) && error == EcsErr::<
                        B,
                        F,
                        P,
                    >::MissingComponent(id),
                },
    {
        let id = component_id::<C>();
        let builder = self.with_component_of(&id);
        assert(match self.world().component_bits(id) {
            Some(bits) => builder matches Ok(builder) && self.requires_bits(bits, builder),
            None => builder matches Err(error) && error == EcsErr::<B, F, P>::MissingComponent(id),
        });
        builder
    }

    /// Asks for entities that carry a component of the type whose identity
    /// is `id`.
    pub fn with_component_of(self, id: &TypeId) -> (builder: Result<Self, EcsErr<B, F, P>>)
        requires
            self.world().wf(),
        ensures
            match self.world().component_bits(*id) {
                Some(bits) => builder matches Ok(builder) && self.requires_bits(bits, builder),
                None => builder matches Err(error) && error == EcsErr::<B, F, P>::MissingComponent(
                    *id,
                ),
            },
    {
        match self.world.component_bit_mask_of(id) {
            Ok(bit_mask) => {
                let mut builder = self;
                builder.bit_mask.set_bit_mask(bit_mask);
                Ok(builder)
            },
            Err(error) => Err(error),
        }
    }

    /// Asks for entities whose mask has the bits of `flag`, or of its
    /// variant.
    pub fn with_flag(self, flag: F, variant: Option<B>) -> (builder: Result<Self, EcsErr<B, F, P>>)
        requires
            self.world().wf(),
        ensures
            match self.world().flag_bits(flag, variant) {
                Some(bits) => builder matches Ok(builder) && self.requires_bits(bits, builder),
                None => builder matches Err(error) && error == EcsErr::<B, F, P>::MissingFlag(flag),
            },
    {
        match self.world.flag_bit_mask(flag, variant) {
            Ok(bit_mask) => {
                let mut builder = self;
                builder.bit_mask.set_bit_mask(bit_mask);
                Ok(builder)
            },
            Err(error) => Err(error),
        }
    }

    /// Scans the world once and keeps the entities whose mask has every
    /// bit of the filter.
    pub fn build(self) -> (query: Query<'world, B, F, P>)
        ensures
            query.world() == self.world(),
            query.entities().to_set() == self.world().matching(self.filter()),
            query.entities().no_duplicates(),
    {
        let entities = self.world.get_entities(self.bit_mask);
        Query { entities, world: self.world }
    }
}

} // verus!
