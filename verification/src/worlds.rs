//! The world: the live store of entities, their presence masks and their
//! component cells, and the builder that assembles its schema.

use std::any::TypeId;
use std::cell::RefCell;
use std::collections::HashMap;
use std::marker::PhantomData;
use std::ops::Range;
use std::rc::Rc;
use vstd::prelude::*;
use vstd::std_specs::cmp::PartialEqSpec;

use crate::bitfields::BitField;
use crate::components::{component_id, Component, ComponentCell};
use crate::entities::{Entity, EntityBuilder, EntityId};
use crate::queries::QueryBuilder;
use crate::schema::Schema;

verus! {

broadcast use vstd::std_specs::hash::group_hash_axioms;

/// What a world or its builder can answer in place of a result.
#[derive(Debug)]
pub enum EcsErr<B, F, P> {
    /// The entity is not alive in the world.
    MissingEntity(Entity),
    /// The component type is not registered.
    MissingComponent(TypeId),
    /// No component pointer is registered under the key.
    MissingComponentPtr(P),
    /// The flag is not registered.
    MissingFlag(F),
    /// The entity does not carry the component, which is registered.
    MissingComponentToEntity(TypeId, Entity),
    /// The cell found in the column of this bit holds another type.
    FailedToDowncastComponentCol(B),
    /// The cell found under the key holds another type.
    FailedToDowncastPtr(P),
    /// The schema needs more bits (first number) than the mask type has
    /// (second number).
    BitFieldRangeTooSmall(usize, usize),
}

/// A column as a map from entities: the cells of one component type.
pub open spec fn by_entity<V>(column: Map<usize, V>) -> Map<Entity, V> {
    Map::new(|entity: Entity| column.contains_key(entity.0), |entity: Entity| column[entity.0])
}

/// The index of the first pointer registered under a key equal to `id`.
pub open spec fn first_pointer<P: PartialEq>(pointers: Seq<(P, ComponentCell)>, id: P) -> Option<int>
    decreases pointers.len(),
{
    if pointers.len() == 0 {
        None
    } else {
        match first_pointer(pointers.drop_last(), id) {
            Some(i) => Some(i),
            None => if pointers.last().0.eq_spec(&id) {
                Some(pointers.len() - 1)
            } else {
                None
            },
        }
    }
}

/// The bits of a flag whose range is `range`, in a schema with `offset`
/// component bits.  Without a variant these are all the bits of the range;
/// with one, the bits of the variant's value, written into the range from
/// its start on and cut off at its end.  Either way the range is counted
/// from the first bit after the component bits.
pub open spec fn placed_bits<B: BitField>(offset: nat, range: Range<u8>, variant: Option<B>) -> Set<
    nat,
> {
    Set::new(
        |bit: nat|
            offset + range.start <= bit && bit < offset + range.end && match variant {
                Some(value) => value.bits().contains((bit - offset - range.start) as nat),
                None => true,
            },
    )
}

/// Whether `got` is `expected`, the items of a vector taken as a sequence.
pub open spec fn same_answers<T, E>(got: Result<Vec<T>, E>, expected: Result<Seq<T>, E>) -> bool {
    match got {
        Ok(items) => expected == Ok::<Seq<T>, E>(items@),
        Err(error) => expected == Err::<Seq<T>, E>(error),
    }
}

/// The masks after `bits` were set on every entity of `targets`.
pub open spec fn set_on(masks: Map<Entity, Set<nat>>, targets: Set<Entity>, bits: Set<nat>) -> Map<
    Entity,
    Set<nat>,
> {
    Map::new(
        |entity: Entity| masks.contains_key(entity),
        |entity: Entity|
            if targets.contains(entity) {
                masks[entity].union(bits)
            } else {
                masks[entity]
            },
    )
}

/// The masks after `bits` were cleared on every entity of `targets`.
pub open spec fn cleared_on(masks: Map<Entity, Set<nat>>, targets: Set<Entity>, bits: Set<nat>) -> Map<
    Entity,
    Set<nat>,
> {
    Map::new(
        |entity: Entity| masks.contains_key(entity),
        |entity: Entity|
            if targets.contains(entity) {
                masks[entity].difference(bits)
            } else {
                masks[entity]
            },
    )
}

/// How many entities at the front of `group` are in `alive`.
pub open spec fn live_prefix(alive: Set<Entity>, group: Seq<Entity>) -> int
    decreases group.len(),
{
    if group.len() == 0 {
        0
    } else {
        let before = live_prefix(alive, group.drop_last());
        if before == group.len() - 1 && alive.contains(group.last()) {
            before + 1
        } else {
            before
        }
    }
}

/// `live_prefix` is the index of the first entity that is not alive, or
/// the length of the group.
pub proof fn lemma_live_prefix(alive: Set<Entity>, group: Seq<Entity>)
    ensures
        0 <= live_prefix(alive, group) <= group.len(),
        forall|j: int| 0 <= j < live_prefix(alive, group) ==> alive.contains(#[trigger] group[j]),
        live_prefix(alive, group) < group.len() ==> !alive.contains(
            group[live_prefix(alive, group)],
        ),
    decreases group.len(),
{
    if group.len() > 0 {
        lemma_live_prefix(alive, group.drop_last());
        let before = live_prefix(alive, group.drop_last());
        assert forall|j: int| 0 <= j < live_prefix(alive, group) implies alive.contains(
            #[trigger] group[j],
        ) by {
            if j < group.len() - 1 {
                assert(group[j] == group.drop_last()[j]);
            }
        }
        if before < group.len() - 1 {
            assert(group[before] == group.drop_last()[before]);
        }
    }
}

/// An index up to which all entities are alive, and at which the entity is
/// not, is the `live_prefix`.
pub proof fn lemma_live_prefix_is(alive: Set<Entity>, group: Seq<Entity>, k: int)
    requires
        0 <= k <= group.len(),
        forall|j: int| 0 <= j < k ==> alive.contains(#[trigger] group[j]),
        k < group.len() ==> !alive.contains(group[k]),
    ensures
        live_prefix(alive, group) == k,
{
    lemma_live_prefix(alive, group);
    let p = live_prefix(alive, group);
    if p < k {
        assert(alive.contains(group[p]));
    }
    if k < p {
        assert(alive.contains(group[k]));
    }
}

/// How many entities at the front of `group` are in `members` and occur
/// there for the first time.
pub open spec fn distinct_prefix(members: Set<Entity>, group: Seq<Entity>) -> int
    decreases group.len(),
{
    if group.len() == 0 {
        0
    } else {
        let before = distinct_prefix(members, group.drop_last());
        if before == group.len() - 1 && members.contains(group.last())
            && !group.drop_last().contains(group.last()) {
            before + 1
        } else {
            before
        }
    }
}

/// `distinct_prefix` is the index of the first entity that is not in
/// `members` or has occurred before, or the length of the group.
pub proof fn lemma_distinct_prefix(members: Set<Entity>, group: Seq<Entity>)
    ensures
        0 <= distinct_prefix(members, group) <= group.len(),
        forall|j: int|
            0 <= j < distinct_prefix(members, group) ==> members.contains(#[trigger] group[j])
                && !group.take(j).contains(group[j]),
        distinct_prefix(members, group) < group.len() ==> !members.contains(
            group[distinct_prefix(members, group)],
        ) || group.take(distinct_prefix(members, group)).contains(
            group[distinct_prefix(members, group)],
        ),
    decreases group.len(),
{
    if group.len() > 0 {
        let rest = group.drop_last();
        lemma_distinct_prefix(members, rest);
        let before = distinct_prefix(members, rest);
        assert(rest =~= group.take(group.len() - 1));
        assert forall|j: int| 0 <= j < distinct_prefix(members, group) implies members.contains(
            #[trigger] group[j],
        ) && !group.take(j).contains(group[j]) by {
            if j < group.len() - 1 {
                assert(group[j] == rest[j]);
                assert(rest.take(j) =~= group.take(j));
            }
        }
        if before < group.len() - 1 {
            assert(group[before] == rest[before]);
            assert(rest.take(before) =~= group.take(before));
        }
    }
}

/// An index up to which all entities are in `members` and new, and at
/// which the entity is not, is the `distinct_prefix`.
pub proof fn lemma_distinct_prefix_is(members: Set<Entity>, group: Seq<Entity>, k: int)
    requires
        0 <= k <= group.len(),
        forall|j: int|
            0 <= j < k ==> members.contains(#[trigger] group[j]) && !group.take(j).contains(group[j]),
        k < group.len() ==> !members.contains(group[k]) || group.take(k).contains(group[k]),
    ensures
        distinct_prefix(members, group) == k,
{
    lemma_distinct_prefix(members, group);
    let p = distinct_prefix(members, group);
    if p < k {
        assert(members.contains(group[p]) && !group.take(p).contains(group[p]));
    }
    if k < p {
        assert(members.contains(group[k]) && !group.take(k).contains(group[k]));
    }
}

/// Collects the schema of a world and its component pointers.
pub struct WorldBuilder<B: BitField, F: BitField, P> {
    schema: Schema<F>,
    component_pointers: Vec<(P, ComponentCell)>,
    mask: PhantomData<B>,
}

/// The live store.
pub struct World<B: BitField, F: BitField, P> {
    schema: Schema<F>,
    component_columns: Vec<HashMap<EntityId, ComponentCell>>,
    component_pointers: Vec<(P, ComponentCell)>,
    entities: HashMap<EntityId, B>,
    next_entity_id: EntityId,
}

/// The first pointer of `pointers` whose key equals `id`.
fn find_pointer<P: PartialEq>(pointers: &Vec<(P, ComponentCell)>, id: &P) -> (found: Option<usize>)
    ensures
        found matches Some(i) ==> i < pointers@.len(),
        P::obeys_eq_spec() ==> match found {
            Some(i) => first_pointer(pointers@, *id) == Some(i as int),
            None => first_pointer(pointers@, *id).is_none(),
        },
{
    let mut i: usize = 0;
    while i < pointers.len()
        invariant
            i <= pointers@.len(),
            P::obeys_eq_spec() ==> first_pointer(pointers@.take(i as int), *id).is_none(),
        decreases pointers@.len() - i,
    {
        proof {
            assert(pointers@.take(i + 1).drop_last() =~= pointers@.take(i as int));
        }
        if pointers[i].0 == *id {
            proof {
                if P::obeys_eq_spec() {
                    assert(pointers@.take(i + 1).last() == pointers@[i as int]);
                    lemma_first_pointer_prefix(pointers@, *id, i + 1);
                }
            }
            return Some(i);
        }
        i = i + 1;
    }
    proof {
        assert(pointers@.take(i as int) =~= pointers@);
    }
    None
}

/// What is first in a prefix is first in the whole.
proof fn lemma_first_pointer_prefix<P: PartialEq>(pointers: Seq<(P, ComponentCell)>, id: P, n: int)
    requires
        0 <= n <= pointers.len(),
        first_pointer(pointers.take(n), id).is_some(),
    ensures
        first_pointer(pointers, id) == first_pointer(pointers.take(n), id),
    decreases pointers.len() - n,
{
    if n < pointers.len() {
        assert(pointers.take(n + 1).drop_last() =~= pointers.take(n));
        lemma_first_pointer_prefix(pointers, id, n + 1);
    } else {
        assert(pointers.take(n) =~= pointers);
    }
}

impl<B: BitField, F: BitField, P: PartialEq> WorldBuilder<B, F, P> {
    /// The schema collected so far.
    pub closed spec fn schema(&self) -> Schema<F> {
        self.schema
    }

    /// The component pointers collected so far, in the order of registration.
    pub closed spec fn pointers(&self) -> Seq<(P, ComponentCell)> {
        self.component_pointers@
    }

    /// The schema registers nothing twice.
    pub open spec fn wf(&self) -> bool {
        self.schema().wf()
    }

    /// The builder after the component type `id` was registered: a new type
    /// gets the next bit, a known type changes nothing.
    pub open spec fn registers_component(&self, id: TypeId, after: Self) -> bool {
        &&& after.wf()
        &&& after.schema().components() == if self.schema().components().contains(id) {
            self.schema().components()
        } else {
            self.schema().components().push(id)
        }
        &&& after.schema().flags() == self.schema().flags()
        &&& after.pointers() == self.pointers()
    }

    /// The builder after a pointer was offered under the key `id`: where the
    /// key is free, `cell` is registered under it; where it is taken,
    /// nothing changes.
    pub open spec fn registers_pointer(&self, id: P, cell: ComponentCell, after: Self) -> bool {
        &&& after.wf()
        &&& after.schema() == self.schema()
        &&& after.pointers() == self.pointers() || after.pointers() == self.pointers().push(
            (id, cell),
        )
        &&& P::obeys_eq_spec() ==> after.pointers() == if first_pointer(self.pointers(), id).is_some() {
            self.pointers()
        } else {
            self.pointers().push((id, cell))
        }
    }

    /// The number of component types registered so far.
    pub fn component_count(&self) -> (count: usize)
        ensures
            count == self.schema().component_count(),
    {
        self.schema.component_len()
    }

    /// Whether the component type `C` is registered already.
    pub fn has_component<C: Component>(&self) -> (has: bool)
        requires
            self.wf(),
        ensures
            exists|id: TypeId| has == #[trigger] self.schema().components().contains(id),
    {
        let id = component_id::<C>();
        let has = self.has_component_of(&id);
        assert(has == self.schema().components().contains(id));
        has
    }

    /// Whether the component type whose identity is `id` is registered
    /// already.
    pub fn has_component_of(&self, id: &TypeId) -> (has: bool)
        requires
            self.wf(),
        ensures
            has == self.schema().components().contains(*id),
    {
        self.schema.component_position(id).is_some()
    }

    /// Whether a component pointer is registered under a key equal to
    /// `id`.
    pub fn has_component_pointer(&self, id: &P) -> (has: bool)
        ensures
            P::obeys_eq_spec() ==> has == first_pointer(self.pointers(), *id).is_some(),
    {
        find_pointer(&self.component_pointers, id).is_some()
    }

    /// Registers the component type `C`.  Registering a type again changes
    /// nothing.
    pub fn with_component<C: Component>(self) -> (builder: Self)
        requires
            self.wf(),
        ensures
            exists|id: TypeId| self.registers_component(id, builder),
    {
        let id = component_id::<C>();
        let builder = self.with_component_of(id);
        assert(self.registers_component(id, builder));
        builder
    }

    /// Registers the component type whose identity is `id`.  Registering a
    /// type again changes nothing.
    pub fn with_component_of(self, id: TypeId) -> (builder: Self)
        requires
            self.wf(),
        ensures
            self.registers_component(id, builder),
    {
        let mut builder = self;
        builder.schema.register_component(id);
        builder
    }

    /// Registers `flag` with the bits `range`, counted from the first bit
    /// after the component bits.  A flag that is registered already gets
    /// the new range.
    pub fn with_flag(self, flag: F, range: Range<u8>) -> (builder: Self)
        requires
            self.wf(),
        ensures
            builder.wf(),
            builder.schema().components() == self.schema().components(),
            builder.schema().flags() == self.schema().flags().insert(flag, range),
            builder.pointers() == self.pointers(),
    {
        let mut builder = self;
        builder.schema.register_flag(flag, range);
        builder
    }

    /// Registers a new cell that holds `component` under the key `id`,
    /// unless the key is taken.
    pub fn with_component_pointer<C: Component>(self, id: P, component: C) -> (builder: Self)
        requires
            self.wf(),
        ensures
            exists|cell: ComponentCell| self.registers_pointer(id, cell, builder),
    {
        let cell = ComponentCell::new(component);
        let builder = self.with_pointer_cell(id, cell);
        assert(self.registers_pointer(id, cell, builder));
        builder
    }

    /// Registers the shared cell `component` under the key `id`, unless the
    /// key is taken.
    pub fn with_shared_component_pointer<C: Component>(
        self,
        id: P,
        component: &Rc<RefCell<C>>,
    ) -> (builder: Self)
        requires
            self.wf(),
        ensures
            exists|cell: ComponentCell| self.registers_pointer(id, cell, builder),
    {
        let cell = ComponentCell::erase(component);
        let builder = self.with_pointer_cell(id, cell);
        assert(self.registers_pointer(id, cell, builder));
        builder
    }

    /// Registers `cell` under the key `id`, unless the key is taken: the
    /// first registration of a key wins.
    pub fn with_pointer_cell(self, id: P, cell: ComponentCell) -> (builder: Self)
        requires
            self.wf(),
        ensures
            self.registers_pointer(id, cell, builder),
    {
        let mut builder = self;
        match find_pointer(&builder.component_pointers, &id) {
            Some(_) => {},
            None => {
                builder.component_pointers.push((id, cell));
            },
        }
        builder
    }

    /// Turns the schema into a world without entities.  Fails when the
    /// schema needs more bits than the mask type `B` has.
    pub fn build(self) -> (world: Result<World<B, F, P>, EcsErr<B, F, P>>)
        requires
            self.wf(),
        ensures
            match world {
                Ok(world) => {
                    &&& self.schema().total_bits() <= B::bit_width()
                    &&& world.wf()
                    &&& world.schema() == self.schema()
                    &&& world.pointers() == self.pointers()
                    &&& world.masks() == Map::<Entity, Set<nat>>::empty()
                    &&& world.next_id() == 0
                    &&& forall|c: int|
                        0 <= c < world.columns().len() ==> #[trigger] world.columns()[c] == Map::<
                            Entity,
                            ComponentCell,
                        >::empty()
                },
                Err(error) => {
                    &&& self.schema().total_bits() > B::bit_width()
                    &&& error == EcsErr::<B, F, P>::BitFieldRangeTooSmall(
                        if self.schema().total_bits() <= usize::MAX {
                            self.schema().total_bits() as usize
                        } else {
                            usize::MAX
                        },
                        B::bit_width() as usize,
                    )
                },
            },
    {
        let range: usize = B::width() as usize;
        let size: usize = self.schema.required_bits();
        if size > range {
            return Err(EcsErr::BitFieldRangeTooSmall(size, range));
        }
        let count = self.schema.component_len();
        let mut component_columns: Vec<HashMap<EntityId, ComponentCell>> = Vec::new();
        let mut c: usize = 0;
        while c < count
            invariant
                c <= count,
                component_columns@.len() == c,
                forall|k: int| 0 <= k < c ==> (#[trigger] component_columns@[k])@ == Map::<
                    EntityId,
                    ComponentCell,
                >::empty(),
            decreases count - c,
        {
            component_columns.push(HashMap::new());
            c = c + 1;
        }
        let world = World {
            schema: self.schema,
            component_columns,
            component_pointers: self.component_pointers,
            entities: HashMap::new(),
            next_entity_id: 0,
        };
        proof {
            assert(world.masks() =~= Map::<Entity, Set<nat>>::empty());
            assert forall|k: int| 0 <= k < world.columns().len() implies #[trigger] world.columns()[k]
                == Map::<Entity, ComponentCell>::empty() by {
                assert(world.columns()[k] =~= Map::<Entity, ComponentCell>::empty());
            }
        }
        Ok(world)
    }
}

impl<B: BitField, F: BitField, P: PartialEq> World<B, F, P> {
    /// The schema, which never changes.
    pub closed spec fn schema(&self) -> Schema<F> {
        self.schema
    }

    /// The entities that are alive, each with the set bits of its mask.
    pub closed spec fn masks(&self) -> Map<Entity, Set<nat>> {
        Map::new(
            |entity: Entity| self.entities@.contains_key(entity.0),
            |entity: Entity| self.entities@[entity.0].bits(),
        )
    }

    /// The cells of each component type, by the type's bit position.
    pub closed spec fn columns(&self) -> Seq<Map<Entity, ComponentCell>> {
        Seq::new(self.component_columns@.len(), |c: int| by_entity(self.component_columns@[c]@))
    }

    /// The component pointers, in the order of registration.
    pub closed spec fn pointers(&self) -> Seq<(P, ComponentCell)> {
        self.component_pointers@
    }

    /// The counter value that the next entity gets.
    pub closed spec fn next_id(&self) -> nat {
        self.next_entity_id as nat
    }

    /// The number of registered component types.
    pub open spec fn component_count(&self) -> nat {
        self.schema().component_count()
    }

    /// Whether `entity` is alive.
    pub open spec fn alive(&self, entity: Entity) -> bool {
        self.masks().contains_key(entity)
    }

    /// The invariant of a world: the schema fits the mask type, there is
    /// one column for each component type, and the mask of every entity
    /// says exactly what the entity carries.
    pub open spec fn wf(&self) -> bool {
        &&& self.schema().wf()
        &&& self.schema().total_bits() <= B::bit_width()
        &&& self.columns().len() == self.component_count()
        &&& forall|entity: Entity| #[trigger] self.alive(entity) ==> entity.0 < self.next_id()
        &&& forall|c: int, entity: Entity|
            0 <= c < self.columns().len() ==> (#[trigger] self.columns()[c].contains_key(entity)
                <==> self.alive(entity) && self.masks()[entity].contains(c as nat))
        &&& forall|entity: Entity, bit: nat|
            self.alive(entity) && #[trigger] self.masks()[entity].contains(bit) ==> bit
                < self.component_count() || self.schema().covers(
                (bit - self.component_count()) as nat,
            )
    }

    /// A builder without any registration.
    pub fn builder() -> (builder: WorldBuilder<B, F, P>)
        ensures
            builder.wf(),
            builder.schema().components() == Seq::<TypeId>::empty(),
            builder.schema().flags() == Map::<F, Range<u8>>::empty(),
            builder.pointers() == Seq::<(P, ComponentCell)>::empty(),
    {
        WorldBuilder { schema: Schema::new(), component_pointers: Vec::new(), mask: PhantomData }
    }

    /// The entities that are alive and whose mask has every bit of `filter`.
    pub open spec fn matching(&self, filter: Set<nat>) -> Set<Entity> {
        Set::new(|entity: Entity| self.alive(entity) && filter.subset_of(self.masks()[entity]))
    }

    /// Every entity whose mask has all the bits of `bit_mask_filter`, each
    /// once, in no particular order.
    pub fn get_entities(&self, bit_mask_filter: B) -> (found: Vec<Entity>)
        ensures
            found@.to_set() == self.matching(bit_mask_filter.bits()),
            found@.no_duplicates(),
    {
        let mut found: Vec<Entity> = Vec::new();
        for pair in iter: self.entities.iter()
            invariant
                iter.seq().no_duplicates(),
                forall|j: int|
                    0 <= j < iter.seq().len() ==> self.entities@.contains_key(
                        *(#[trigger] iter.seq()[j]).0,
                    ) && self.entities@[*iter.seq()[j].0] == *iter.seq()[j].1,
                forall|id: EntityId| #[trigger]
                    self.entities@.contains_key(id) ==> exists|j: int|
                        0 <= j < iter.seq().len() && *(#[trigger] iter.seq()[j]).0 == id,
                found@.no_duplicates(),
                forall|entity: Entity| #[trigger]
                    found@.contains(entity) <==> bit_mask_filter.bits().subset_of(
                        self.entities@[entity.0].bits(),
                    ) && exists|j: int|
                        0 <= j < iter.index() && *(#[trigger] iter.seq()[j]).0 == entity.0,
        {
            let (id, bit_mask) = pair;
            let ghost before = found@;
            if bit_mask.has_bit_mask(bit_mask_filter) {
                found.push(Entity(*id));
                proof {
                    let entity = Entity(*id);
                    assert(!before.contains(entity)) by {
                        if before.contains(entity) {
                            let j = choose|j: int|
                                0 <= j < iter.index() && *(#[trigger] iter.seq()[j]).0 == entity.0;
                            assert(iter.seq()[j] == iter.seq()[iter.index()]);
                        }
                    }
                    assert forall|other: Entity| #[trigger]
                        found@.contains(other) <==> bit_mask_filter.bits().subset_of(
                            self.entities@[other.0].bits(),
                        ) && exists|j: int|
                            0 <= j < iter.index() + 1 && *(#[trigger] iter.seq()[j]).0
                                == other.0 by {
                        if found@.contains(other) {
                            let k = choose|k: int| 0 <= k < found@.len() && found@[k] == other;
                            if k < before.len() {
                                assert(before.contains(other));
                            } else {
                                assert(other == entity);
                                assert(*iter.seq()[iter.index()].0 == other.0);
                            }
                        }
                        if bit_mask_filter.bits().subset_of(self.entities@[other.0].bits())
                            && exists|j: int|
                            0 <= j < iter.index() + 1 && *(#[trigger] iter.seq()[j]).0
                                == other.0 {
                            let j = choose|j: int|
                                0 <= j < iter.index() + 1 && *(#[trigger] iter.seq()[j]).0
                                    == other.0;
                            if j < iter.index() {
                                assert(before.contains(other));
                                let k = choose|k: int| 0 <= k < before.len() && before[k] == other;
                                assert(found@[k] == other);
                            } else {
                                assert(other == entity);
                                assert(found@[found@.len() - 1] == other);
                            }
                        }
                    }
                }
            } else {
                proof {
                    assert forall|other: Entity| #[trigger]
                        found@.contains(other) <==> bit_mask_filter.bits().subset_of(
                            self.entities@[other.0].bits(),
                        ) && exists|j: int|
                            0 <= j < iter.index() + 1 && *(#[trigger] iter.seq()[j]).0
                                == other.0 by {
                        if bit_mask_filter.bits().subset_of(self.entities@[other.0].bits())
                            && exists|j: int|
                            0 <= j < iter.index() + 1 && *(#[trigger] iter.seq()[j]).0
                                == other.0 {
                            let j = choose|j: int|
                                0 <= j < iter.index() + 1 && *(#[trigger] iter.seq()[j]).0
                                    == other.0;
                            assert(j < iter.index());
                        }
                    }
                }
            }
        }
        proof {
            assert(found@.to_set() =~= self.matching(bit_mask_filter.bits()));
        }
        found
    }

    /// The bits of the mask of a component type: its one bit.
    pub open spec fn component_bits(&self, id: TypeId) -> Option<Set<nat>> {
        match self.schema().position(id) {
            Some(position) => Some(set![position]),
            None => None,
        }
    }

    /// The bits of the mask of a flag, or of one of its variants.
    pub open spec fn flag_bits(&self, flag: F, variant: Option<B>) -> Option<Set<nat>> {
        if self.schema().flags().contains_key(flag) {
            Some(placed_bits(self.component_count(), self.schema().flags()[flag], variant))
        } else {
            None
        }
    }

    /// Whether `error` says that the component type `id` is not registered,
    /// and it is not.
    pub open spec fn lacks_component(&self, id: TypeId, error: EcsErr<B, F, P>) -> bool {
        self.schema().position(id).is_none() && error == EcsErr::<B, F, P>::MissingComponent(id)
    }

    /// What `component_bit_mask_of` answers for the component type `id`.
    pub open spec fn resolves_component(&self, id: TypeId, mask: Result<B, EcsErr<B, F, P>>) -> bool {
        match self.component_bits(id) {
            Some(bits) => mask matches Ok(found) && found.bits() == bits,
            None => mask == Err::<B, EcsErr<B, F, P>>(EcsErr::MissingComponent(id)),
        }
    }

    /// Whether `entity` carries the component type `id`.
    pub open spec fn has_component(&self, id: TypeId, entity: Entity) -> Result<
        bool,
        EcsErr<B, F, P>,
    > {
        if !self.alive(entity) {
            Err(EcsErr::MissingEntity(entity))
        } else {
            match self.component_bits(id) {
                Some(bits) => Ok(bits.subset_of(self.masks()[entity])),
                None => Err(EcsErr::MissingComponent(id)),
            }
        }
    }

    /// Whether `entity` has all the bits of `flag`, or of its variant.
    pub open spec fn has_flag(&self, entity: Entity, flag: F, variant: Option<B>) -> Result<
        bool,
        EcsErr<B, F, P>,
    > {
        if !self.alive(entity) {
            Err(EcsErr::MissingEntity(entity))
        } else {
            match self.flag_bits(flag, variant) {
                Some(bits) => Ok(bits.subset_of(self.masks()[entity])),
                None => Err(EcsErr::MissingFlag(flag)),
            }
        }
    }

    /// For each entity of `group`, whether its mask has all of `bits`;
    /// the first entity that is not alive fails the whole group.
    pub open spec fn group_has(&self, bits: Set<nat>, group: Seq<Entity>) -> Result<
        Seq<bool>,
        EcsErr<B, F, P>,
    > {
        let prefix = live_prefix(self.masks().dom(), group);
        if prefix < group.len() {
            Err(EcsErr::MissingEntity(group[prefix]))
        } else {
            Ok(Seq::new(group.len(), |j: int| bits.subset_of(self.masks()[group[j]])))
        }
    }

    /// For each entity of `group`, whether it carries the component type
    /// `id`.
    pub open spec fn group_has_component(&self, id: TypeId, group: Seq<Entity>) -> Result<
        Seq<bool>,
        EcsErr<B, F, P>,
    > {
        match self.component_bits(id) {
            Some(bits) => self.group_has(bits, group),
            None => Err(EcsErr::MissingComponent(id)),
        }
    }

    /// For each entity of `group`, whether it has all the bits of `flag`,
    /// or of its variant.
    pub open spec fn group_has_flag(&self, group: Seq<Entity>, flag: F, variant: Option<B>) -> Result<
        Seq<bool>,
        EcsErr<B, F, P>,
    > {
        match self.flag_bits(flag, variant) {
            Some(bits) => self.group_has(bits, group),
            None => Err(EcsErr::MissingFlag(flag)),
        }
    }

    /// The bit position of a registered component type.
    pub(crate) fn component_column(&self, id: &TypeId) -> (found: Option<usize>)
        requires
            self.wf(),
        ensures
            match found {
                Some(c) => self.schema().position(*id) == Some(c as nat) && c
                    < self.component_count() && c < B::bit_width(),
                None => self.schema().position(*id).is_none(),
            },
    {
        proof {
            self.schema.lemma_position(*id);
        }
        self.schema.component_position(id)
    }

    /// The mask of an entity, if it is alive.
    fn entity_bit_mask(&self, entity: Entity) -> (found: Option<B>)
        ensures
            match found {
                Some(mask) => self.alive(entity) && self.entities@[entity.0] == mask && mask.bits()
                    == self.masks()[entity],
                None => !self.alive(entity),
            },
    {
        match self.entities.get(&entity.0) {
            Some(mask) => Some(*mask),
            None => None,
        }
    }

    /// For each entity of `group`, whether its mask has all the bits of
    /// `bit_mask`.
    fn group_has_bit_mask(&self, bit_mask: B, group: &[Entity]) -> (has: Result<
        Vec<bool>,
        EcsErr<B, F, P>,
    >)
        ensures
            same_answers(has, self.group_has(bit_mask.bits(), group@)),
    {
        let mut has: Vec<bool> = Vec::new();
        let mut j: usize = 0;
        while j < group.len()
            invariant
                j <= group@.len(),
                has@.len() == j,
                forall|k: int| 0 <= k < j ==> self.alive(#[trigger] group@[k]),
                forall|k: int|
                    0 <= k < j ==> #[trigger] has@[k] == bit_mask.bits().subset_of(
                        self.masks()[group@[k]],
                    ),
            decreases group@.len() - j,
        {
            match self.entity_bit_mask(group[j]) {
                Some(mask) => {
                    has.push(mask.has_bit_mask(bit_mask));
                },
                None => {
                    proof {
                        lemma_live_prefix_is(self.masks().dom(), group@, j as int);
                    }
                    return Err(EcsErr::MissingEntity(group[j]));
                },
            }
            j = j + 1;
        }
        proof {
            lemma_live_prefix_is(self.masks().dom(), group@, j as int);
            assert(has@ =~= Seq::new(
                group@.len(),
                |j: int| bit_mask.bits().subset_of(self.masks()[group@[j]]),
            ));
        }
        Ok(has)
    }

    /// The one-bit mask of the component type `C`.
    pub fn component_bit_mask<C: Component>(&self) -> (mask: Result<B, EcsErr<B, F, P>>)
        requires
            self.wf(),
        ensures
            exists|id: TypeId| self.resolves_component(id, mask),
    {
        let id = component_id::<C>();
        let mask = self.component_bit_mask_of(&id);
        assert(self.resolves_component(id, mask));
        mask
    }

    /// The one-bit mask of the component type whose identity is `id`.
    pub fn component_bit_mask_of(&self, id: &TypeId) -> (mask: Result<B, EcsErr<B, F, P>>)
        requires
            self.wf(),
        ensures
            self.resolves_component(*id, mask),
    {
        match self.component_column(id) {
            Some(c) => {
                let width = B::width();
                assert(c < width);
                let mask = B::bit(c as u8);
                assert(mask.bits() =~= set![c as nat]);
                Ok(mask)
            },
            None => Err(EcsErr::MissingComponent(*id)),
        }
    }

    /// The mask of `flag`: all the bits of its range when `variant` is
    /// `None`, and the bits of the variant's value, packed into the range,
    /// otherwise.  The range always lies after the component bits.
    pub fn flag_bit_mask(&self, flag: F, variant: Option<B>) -> (mask: Result<B, EcsErr<B, F, P>>)
        requires
            self.wf(),
        ensures
            match self.flag_bits(flag, variant) {
                Some(bits) => mask matches Ok(found) && found.bits() == bits,
                None => mask == Err::<B, EcsErr<B, F, P>>(EcsErr::MissingFlag(flag)),
            },
    {
        let range = match self.schema.flag_range(&flag) {
            Some(range) => range,
            None => {
                return Err(EcsErr::MissingFlag(flag));
            },
        };
        let width = B::width();
        let offset = self.schema.component_len() as u8;
        let window = B::bit_mask(Range { start: range.start, end: range.end });
        let packed = match variant {
            Some(value) => value.shifted(range.start).masked(window),
            None => window,
        };
        let mask = packed.shifted(offset);
        proof {
            self.schema.lemma_flag_end();
            assert(self.component_count() + range.end <= B::bit_width());
            assert(mask.bits() =~= placed_bits(self.component_count(), range, variant));
        }
        Ok(mask)
    }

    /// Whether `entity` carries a component of type `C`.
    pub fn entity_has_component<C: Component>(&self, entity: Entity) -> (has: Result<
        bool,
        EcsErr<B, F, P>,
    >)
        requires
            self.wf(),
        ensures
            exists|id: TypeId| has == self.has_component(id, entity),
    {
        let id = component_id::<C>();
        let has = self.entity_has_component_of(&id, entity);
        assert(has == self.has_component(id, entity));
        has
    }

    /// Whether `entity` carries a component of the type whose identity is
    /// `id`.
    pub fn entity_has_component_of(&self, id: &TypeId, entity: Entity) -> (has: Result<
        bool,
        EcsErr<B, F, P>,
    >)
        requires
            self.wf(),
        ensures
            has == self.has_component(*id, entity),
    {
        let mask = match self.entity_bit_mask(entity) {
            Some(mask) => mask,
            None => {
                return Err(EcsErr::MissingEntity(entity));
            },
        };
        match self.component_bit_mask_of(id) {
            Ok(bit_mask) => Ok(mask.has_bit_mask(bit_mask)),
            Err(error) => Err(error),
        }
    }

    /// For each entity of the group, whether it carries a component of
    /// type `C`.
    pub fn entity_group_has_component<C: Component>(&self, entity_group: &[Entity]) -> (has: Result<
        Vec<bool>,
        EcsErr<B, F, P>,
    >)
        requires
            self.wf(),
        ensures
            exists|id: TypeId|
                same_answers(has, self.group_has_component(id, entity_group@)),
    {
        let id = component_id::<C>();
        let has = self.entity_group_has_component_of(&id, entity_group);
        assert(same_answers(has, self.group_has_component(id, entity_group@)));
        has
    }

    /// For each entity of the group, whether it carries a component of the
    /// type whose identity is `id`.
    pub fn entity_group_has_component_of(&self, id: &TypeId, entity_group: &[Entity]) -> (has:
        Result<Vec<bool>, EcsErr<B, F, P>>)
        requires
            self.wf(),
        ensures
            same_answers(has, self.group_has_component(*id, entity_group@)),
    {
        match self.component_bit_mask_of(id) {
            Ok(bit_mask) => self.group_has_bit_mask(bit_mask, entity_group),
            Err(error) => Err(error),
        }
    }

    /// Whether the mask of `entity` has all the bits of `flag`, or of its
    /// variant.
    pub fn entity_has_flag(&self, entity: Entity, flag: F, variant: Option<B>) -> (has: Result<
        bool,
        EcsErr<B, F, P>,
    >)
        requires
            self.wf(),
        ensures
            has == self.has_flag(entity, flag, variant),
    {
        let mask = match self.entity_bit_mask(entity) {
            Some(mask) => mask,
            None => {
                return Err(EcsErr::MissingEntity(entity));
            },
        };
        match self.flag_bit_mask(flag, variant) {
            Ok(bit_mask) => Ok(mask.has_bit_mask(bit_mask)),
            Err(error) => Err(error),
        }
    }

    /// For each entity of the group, whether its mask has all the bits of
    /// `flag`, or of its variant.
    pub fn entity_group_has_flag(&self, entity_group: &[Entity], flag: F, variant: Option<B>) -> (has:
        Result<Vec<bool>, EcsErr<B, F, P>>)
        requires
            self.wf(),
        ensures
            same_answers(has, self.group_has_flag(entity_group@, flag, variant)),
    {
        match self.flag_bit_mask(flag, variant) {
            Ok(bit_mask) => self.group_has_bit_mask(bit_mask, entity_group),
            Err(error) => Err(error),
        }
    }

    /// What no operation on a world changes: the invariant holds again, and
    /// the schema, the component pointers and the counter are the same.
    pub open spec fn evolves_to(&self, after: Self) -> bool {
        &&& after.wf()
        &&& after.schema() == self.schema()
        &&& after.pointers() == self.pointers()
        &&& after.next_id() == self.next_id()
    }

    /// The world after the bits of `flag` were set (`set`) or cleared on
    /// the entities of `group`, one after the other, up to the first that
    /// is not alive.
    pub open spec fn changes_flag(
        &self,
        after: Self,
        group: Seq<Entity>,
        flag: F,
        variant: Option<B>,
        set: bool,
        outcome: Result<(), EcsErr<B, F, P>>,
    ) -> bool {
        &&& self.evolves_to(after)
        &&& after.columns() == self.columns()
        &&& match self.flag_bits(flag, variant) {
            None => {
                &&& after.masks() == self.masks()
                &&& outcome == Err::<(), EcsErr<B, F, P>>(EcsErr::MissingFlag(flag))
            },
            Some(bits) => {
                let prefix = live_prefix(self.masks().dom(), group);
                let targets = group.take(prefix).to_set();
                &&& after.masks() == if set {
                    set_on(self.masks(), targets, bits)
                } else {
                    cleared_on(self.masks(), targets, bits)
                }
                &&& outcome == if prefix < group.len() {
                    Err::<(), EcsErr<B, F, P>>(EcsErr::MissingEntity(group[prefix]))
                } else {
                    Ok::<(), EcsErr<B, F, P>>(())
                }
            },
        }
    }

    /// The bits of a flag lie after the component bits, inside the range of
    /// a registered flag.
    pub proof fn lemma_flag_bits(&self, flag: F, variant: Option<B>)
        requires
            self.flag_bits(flag, variant).is_some(),
        ensures
            forall|bit: nat| #[trigger]
                self.flag_bits(flag, variant).unwrap().contains(bit) ==> bit
                    >= self.component_count() && self.schema().covers(
                    (bit - self.component_count()) as nat,
                ),
    {
        assert forall|bit: nat| #[trigger]
            self.flag_bits(flag, variant).unwrap().contains(bit) implies bit
            >= self.component_count() && self.schema().covers(
            (bit - self.component_count()) as nat,
        ) by {
            assert(self.schema().flags().contains_key(flag));
        }
    }

    /// Sets or clears `bit_mask`, which holds no component bit, on the mask
    /// of `entity`, if it is alive.
    fn change_entity_bits(&mut self, entity: Entity, bit_mask: B, set: bool) -> (done: bool)
        requires
            old(self).wf(),
            forall|bit: nat| #[trigger]
                bit_mask.bits().contains(bit) ==> bit >= old(self).component_count() && old(self).schema().covers((bit - old(self).component_count()) as nat),
        ensures
            old(self).evolves_to(*final(self)),
            final(self).columns() == old(self).columns(),
            done == old(self).alive(entity),
            final(self).masks() == if !done {
                old(self).masks()
            } else if set {
                set_on(old(self).masks(), set![entity], bit_mask.bits())
            } else {
                cleared_on(old(self).masks(), set![entity], bit_mask.bits())
            },
    {
        let mut mask = match self.entity_bit_mask(entity) {
            Some(mask) => mask,
            None => {
                return false;
            },
        };
        if set {
            mask.set_bit_mask(bit_mask);
        } else {
            mask.unset_bit_mask(bit_mask);
        }
        self.entities.insert(entity.0, mask);
        proof {
            assert(final(self).columns() =~= old(self).columns());
            if set {
                assert(self.masks() =~= set_on(old(self).masks(), set![entity], bit_mask.bits()));
            } else {
                assert(self.masks() =~= cleared_on(
                    old(self).masks(),
                    set![entity],
                    bit_mask.bits(),
                ));
            }
            assert forall|c: int, other: Entity| 0 <= c < self.columns().len() implies (
            #[trigger] self.columns()[c].contains_key(other) <==> self.alive(other)
                && self.masks()[other].contains(c as nat)) by {
                assert(old(self).columns()[c].contains_key(other) <==> old(self).alive(other) && old(self).masks()[other].contains(c as nat));
            }
            assert forall|other: Entity, bit: nat|
                self.alive(other) && #[trigger] self.masks()[other].contains(bit) implies bit
                < self.component_count() || self.schema().covers(
                (bit - self.component_count()) as nat,
            ) by {
                if !bit_mask.bits().contains(bit) {
                    assert(old(self).masks()[other].contains(bit));
                }
            }
            assert forall|other: Entity| #[trigger] self.alive(other) implies other.0
                < self.next_id() by {
                assert(old(self).alive(other));
            }
        }
        true
    }

    /// Sets or clears the bits of `flag` on the entities of the group, up
    /// to the first that is not alive.
    fn change_group_flag(
        &mut self,
        entity_group: &[Entity],
        flag: F,
        variant: Option<B>,
        set: bool,
    ) -> (outcome: Result<(), EcsErr<B, F, P>>)
        requires
            old(self).wf(),
        ensures
            old(self).changes_flag(*final(self), entity_group@, flag, variant, set, outcome),
    {
        let bit_mask = match self.flag_bit_mask(flag, variant) {
            Ok(bit_mask) => bit_mask,
            Err(error) => {
                return Err(error);
            },
        };
        proof {
            self.lemma_flag_bits(flag, variant);
        }
        let ghost alive = self.masks().dom();
        let mut j: usize = 0;
        while j < entity_group.len()
            invariant
                j <= entity_group@.len(),
                old(self).evolves_to(*self),
                self.columns() == old(self).columns(),
                alive == old(self).masks().dom(),
                old(self).flag_bits(flag, variant) == Some(bit_mask.bits()),
                forall|k: int| 0 <= k < j ==> alive.contains(#[trigger] entity_group@[k]),
                forall|bit: nat| #[trigger]
                    bit_mask.bits().contains(bit) ==> bit >= old(self).component_count() && old(self).schema().covers((bit - old(self).component_count()) as nat),
                self.masks() == if set {
                    set_on(old(self).masks(), entity_group@.take(j as int).to_set(), bit_mask.bits())
                } else {
                    cleared_on(
                        old(self).masks(),
                        entity_group@.take(j as int).to_set(),
                        bit_mask.bits(),
                    )
                },
            decreases entity_group@.len() - j,
        {
            let ghost before = self.masks();
            let done = self.change_entity_bits(entity_group[j], bit_mask, set);
            if !done {
                proof {
                    lemma_live_prefix_is(alive, entity_group@, j as int);
                }
                return Err(EcsErr::MissingEntity(entity_group[j]));
            }
            proof {
                assert(entity_group@.take(j + 1).to_set() =~= entity_group@.take(j as int).to_set().insert(
                    entity_group@[j as int],
                )) by {
                    assert(entity_group@.take(j + 1) =~= entity_group@.take(j as int).push(
                        entity_group@[j as int],
                    ));
                    entity_group@.take(j as int).lemma_push_to_set_commute(entity_group@[j as int]);
                }
                if set {
                    assert(self.masks() =~~= set_on(
                        old(self).masks(),
                        entity_group@.take(j + 1).to_set(),
                        bit_mask.bits(),
                    ));
                } else {
                    assert(self.masks() =~~= cleared_on(
                        old(self).masks(),
                        entity_group@.take(j + 1).to_set(),
                        bit_mask.bits(),
                    ));
                }
            }
            j = j + 1;
        }
        proof {
            lemma_live_prefix_is(alive, entity_group@, j as int);
        }
        Ok(())
    }

    /// The world after the bits of `flag` were set (`set`) or cleared on
    /// `entity`.
    pub open spec fn changes_entity_flag(
        &self,
        after: Self,
        entity: Entity,
        flag: F,
        variant: Option<B>,
        set: bool,
        outcome: Result<(), EcsErr<B, F, P>>,
    ) -> bool {
        &&& self.evolves_to(after)
        &&& after.columns() == self.columns()
        &&& match self.flag_bits(flag, variant) {
            None => {
                &&& after.masks() == self.masks()
                &&& outcome == Err::<(), EcsErr<B, F, P>>(EcsErr::MissingFlag(flag))
            },
            Some(bits) => if self.alive(entity) {
                &&& after.masks() == self.masks().insert(
                    entity,
                    if set {
                        self.masks()[entity].union(bits)
                    } else {
                        self.masks()[entity].difference(bits)
                    },
                )
                &&& outcome == Ok::<(), EcsErr<B, F, P>>(())
            } else {
                &&& after.masks() == self.masks()
                &&& outcome == Err::<(), EcsErr<B, F, P>>(EcsErr::MissingEntity(entity))
            },
        }
    }

    fn change_entity_flag(&mut self, entity: Entity, flag: F, variant: Option<B>, set: bool) -> (outcome:
        Result<(), EcsErr<B, F, P>>)
        requires
            old(self).wf(),
        ensures
            old(self).changes_entity_flag(*final(self), entity, flag, variant, set, outcome),
    {
        let bit_mask = match self.flag_bit_mask(flag, variant) {
            Ok(bit_mask) => bit_mask,
            Err(error) => {
                return Err(error);
            },
        };
        proof {
            self.lemma_flag_bits(flag, variant);
        }
        let done = self.change_entity_bits(entity, bit_mask, set);
        proof {
            if done {
                assert(self.masks() =~~= old(self).masks().insert(
                    entity,
                    if set {
                        old(self).masks()[entity].union(bit_mask.bits())
                    } else {
                        old(self).masks()[entity].difference(bit_mask.bits())
                    },
                ));
            }
        }
        if done {
            Ok(())
        } else {
            Err(EcsErr::MissingEntity(entity))
        }
    }

    /// Sets the bits of `flag`, or of its variant, on the mask of `entity`.
    pub fn set_entity_flag(&mut self, entity: Entity, flag: F, variant: Option<B>) -> (outcome: Result<
        (),
        EcsErr<B, F, P>,
    >)
        requires
            old(self).wf(),
        ensures
            old(self).changes_entity_flag(*final(self), entity, flag, variant, true, outcome),
    {
        self.change_entity_flag(entity, flag, variant, true)
    }

    /// Sets the bits of `flag`, or of its variant, on the entities of the
    /// group, one after the other; the first entity that is not alive ends
    /// the work with an error.
    pub fn set_entity_group_flag(
        &mut self,
        entity_group: &[Entity],
        flag: F,
        variant: Option<B>,
    ) -> (outcome: Result<(), EcsErr<B, F, P>>)
        requires
            old(self).wf(),
        ensures
            old(self).changes_flag(*final(self), entity_group@, flag, variant, true, outcome),
    {
        self.change_group_flag(entity_group, flag, variant, true)
    }

    /// Clears the bits of `flag`, or of its variant, on the mask of
    /// `entity`.
    pub fn remove_entity_flag(&mut self, entity: Entity, flag: F, variant: Option<B>) -> (outcome:
        Result<(), EcsErr<B, F, P>>)
        requires
            old(self).wf(),
        ensures
            old(self).changes_entity_flag(*final(self), entity, flag, variant, false, outcome),
    {
        self.change_entity_flag(entity, flag, variant, false)
    }

    /// Clears the bits of `flag`, or of its variant, on the entities of the
    /// group, one after the other; the first entity that is not alive ends
    /// the work with an error.
    pub fn remove_entity_group_flag(
        &mut self,
        entity_group: &[Entity],
        flag: F,
        variant: Option<B>,
    ) -> (outcome: Result<(), EcsErr<B, F, P>>)
        requires
            old(self).wf(),
        ensures
            old(self).changes_flag(*final(self), entity_group@, flag, variant, false, outcome),
    {
        self.change_group_flag(entity_group, flag, variant, false)
    }

    /// The world after `cell` was attached to `entity` as its component of
    /// the type `id`.
    pub open spec fn attaches(
        &self,
        after: Self,
        id: TypeId,
        cell: ComponentCell,
        entity: Entity,
        outcome: Result<(), EcsErr<B, F, P>>,
    ) -> bool {
        &&& self.evolves_to(after)
        &&& if !self.alive(entity) {
            &&& after.masks() == self.masks()
            &&& after.columns() == self.columns()
            &&& outcome == Err::<(), EcsErr<B, F, P>>(EcsErr::MissingEntity(entity))
        } else {
            match self.schema().position(id) {
                None => {
                    &&& after.masks() == self.masks()
                    &&& after.columns() == self.columns()
                    &&& outcome == Err::<(), EcsErr<B, F, P>>(EcsErr::MissingComponent(id))
                },
                Some(position) => {
                    &&& after.masks() == self.masks().insert(
                        entity,
                        self.masks()[entity].insert(position),
                    )
                    &&& after.columns() == self.columns().update(
                        position as int,
                        self.columns()[position as int].insert(entity, cell),
                    )
                    &&& outcome == Ok::<(), EcsErr<B, F, P>>(())
                },
            }
        }
    }

    /// Puts `cell` into column `c` for `entity`, which is alive, and sets
    /// bit `c` on its mask.
    fn attach_cell(&mut self, c: usize, cell: ComponentCell, entity: Entity, mask: B)
        requires
            old(self).wf(),
            c < old(self).component_count(),
            old(self).alive(entity),
            old(self).entities@[entity.0] == mask,
        ensures
            old(self).evolves_to(*final(self)),
            final(self).masks() == old(self).masks().insert(
                entity,
                old(self).masks()[entity].insert(c as nat),
            ),
            final(self).columns() == old(self).columns().update(
                c as int,
                old(self).columns()[c as int].insert(entity, cell),
            ),
    {
        let width = B::width();
        let mut mask = mask;
        mask.set_bit_mask(B::bit(c as u8));
        self.entities.insert(entity.0, mask);
        self.component_columns[c].insert(entity.0, cell);
        proof {
            assert(mask.bits() =~= old(self).masks()[entity].insert(c as nat));
            assert(self.masks() =~~= old(self).masks().insert(
                entity,
                old(self).masks()[entity].insert(c as nat),
            ));
            assert(self.columns()[c as int] =~= old(self).columns()[c as int].insert(entity, cell));
            assert(self.columns() =~= old(self).columns().update(
                c as int,
                old(self).columns()[c as int].insert(entity, cell),
            ));
            assert forall|k: int, other: Entity| 0 <= k < self.columns().len() implies (
            #[trigger] self.columns()[k].contains_key(other) <==> self.alive(other)
                && self.masks()[other].contains(k as nat)) by {
                assert(old(self).columns()[k].contains_key(other) <==> old(self).alive(other) && old(self).masks()[other].contains(k as nat));
            }
            assert forall|other: Entity, bit: nat|
                self.alive(other) && #[trigger] self.masks()[other].contains(bit) implies bit
                < self.component_count() || self.schema().covers(
                (bit - self.component_count()) as nat,
            ) by {
                if bit != c {
                    assert(old(self).masks()[other].contains(bit));
                }
            }
            assert forall|other: Entity| #[trigger] self.alive(other) implies other.0
                < self.next_id() by {
                assert(old(self).alive(other));
            }
        }
    }

    /// Attaches a new cell that holds `component` to `entity`.
    pub fn add_component_to_entity<C: Component>(&mut self, component: C, entity: Entity) -> (outcome:
        Result<(), EcsErr<B, F, P>>)
        requires
            old(self).wf(),
        ensures
            exists|id: TypeId, cell: ComponentCell|
                old(self).attaches(*final(self), id, cell, entity, outcome),
    {
        let id = component_id::<C>();
        let cell = ComponentCell::new(component);
        let outcome = self.add_cell_to_entity(&id, cell, entity);
        assert(old(self).attaches(*self, id, cell, entity, outcome));
        outcome
    }

    /// Attaches the shared cell `component` to `entity`.
    pub fn add_shared_component_to_entity<C: Component>(
        &mut self,
        component: &Rc<RefCell<C>>,
        entity: Entity,
    ) -> (outcome: Result<(), EcsErr<B, F, P>>)
        requires
            old(self).wf(),
        ensures
            exists|id: TypeId, cell: ComponentCell|
                old(self).attaches(*final(self), id, cell, entity, outcome),
    {
        let id = component_id::<C>();
        let cell = ComponentCell::erase(component);
        let outcome = self.add_cell_to_entity(&id, cell, entity);
        assert(old(self).attaches(*self, id, cell, entity, outcome));
        outcome
    }

    /// Attaches `cell` to `entity` as its component of the type whose
    /// identity is `id`.  A cell that the entity carried for that type is
    /// replaced.
    pub fn add_cell_to_entity(&mut self, id: &TypeId, cell: ComponentCell, entity: Entity) -> (outcome:
        Result<(), EcsErr<B, F, P>>)
        requires
            old(self).wf(),
        ensures
            old(self).attaches(*final(self), *id, cell, entity, outcome),
    {
        let mask = match self.entity_bit_mask(entity) {
            Some(mask) => mask,
            None => {
                return Err(EcsErr::MissingEntity(entity));
            },
        };
        let c = match self.component_column(id) {
            Some(c) => c,
            None => {
                return Err(EcsErr::MissingComponent(*id));
            },
        };
        self.attach_cell(c, cell, entity, mask);
        Ok(())
    }

    /// The world after a cell was attached, at bit `position`, to each
    /// entity of `targets`, all of them alive.  Which cells these are is
    /// not said here.
    pub open spec fn attached_to(&self, after: Self, position: nat, targets: Set<Entity>) -> bool {
        &&& after.masks() == set_on(self.masks(), targets, set![position])
        &&& after.columns().len() == self.columns().len()
        &&& forall|c: int|
            0 <= c < self.columns().len() && c != position ==> #[trigger] after.columns()[c]
                == self.columns()[c]
        &&& after.columns()[position as int].dom() == self.columns()[position as int].dom().union(
            targets,
        )
        &&& forall|entity: Entity|
            !targets.contains(entity) && self.columns()[position as int].contains_key(entity)
                ==> #[trigger] after.columns()[position as int][entity]
                == self.columns()[position as int][entity]
    }

    /// The world after a cell was attached, as the component of the type
    /// `id`, to the entities of `group`, one after the other, up to the
    /// first that is not alive.
    pub open spec fn attaches_group(
        &self,
        after: Self,
        id: TypeId,
        group: Seq<Entity>,
        outcome: Result<(), EcsErr<B, F, P>>,
    ) -> bool {
        &&& self.evolves_to(after)
        &&& match self.schema().position(id) {
            None => {
                &&& after.masks() == self.masks()
                &&& after.columns() == self.columns()
                &&& outcome == Err::<(), EcsErr<B, F, P>>(EcsErr::MissingComponent(id))
            },
            Some(position) => {
                let prefix = live_prefix(self.masks().dom(), group);
                &&& self.attached_to(after, position, group.take(prefix).to_set())
                &&& outcome == if prefix < group.len() {
                    Err::<(), EcsErr<B, F, P>>(EcsErr::MissingEntity(group[prefix]))
                } else {
                    Ok::<(), EcsErr<B, F, P>>(())
                }
            },
        }
    }

    /// Nothing attached yet.
    proof fn lemma_attached_none(self, position: nat)
        ensures
            self.attached_to(self, position, Set::<Entity>::empty()),
    {
        assert(self.masks() =~~= set_on(self.masks(), Set::<Entity>::empty(), set![position]));
        assert(self.columns()[position as int].dom() =~= self.columns()[position as int].dom().union(
            Set::<Entity>::empty(),
        ));
    }

    /// One more attachment after those of `attached_to`.
    proof fn lemma_attached_step(
        self,
        middle: Self,
        after: Self,
        position: nat,
        targets: Set<Entity>,
        entity: Entity,
        cell: ComponentCell,
    )
        requires
            position < self.columns().len(),
            self.attached_to(middle, position, targets),
            self.alive(entity),
            after.masks() == middle.masks().insert(entity, middle.masks()[entity].insert(position)),
            after.columns() == middle.columns().update(
                position as int,
                middle.columns()[position as int].insert(entity, cell),
            ),
        ensures
            self.attached_to(after, position, targets.insert(entity)),
            after.columns()[position as int][entity] == cell,
            forall|other: Entity|
                other != entity ==> after.columns()[position as int][other]
                    == middle.columns()[position as int][other],
    {
        assert(after.masks() =~~= set_on(self.masks(), targets.insert(entity), set![position]));
        assert(after.columns()[position as int].dom() =~= self.columns()[position as int].dom().union(
            targets.insert(entity),
        ));
    }

    /// Attaches to each entity of the group a new cell of its own that
    /// holds a clone of `component`.  The entities are taken one after the
    /// other; the first that is not alive ends the work with an error.
    pub fn add_component_to_entity_group<C: Component>(
        &mut self,
        component: C,
        entity_group: &[Entity],
    ) -> (outcome: Result<(), EcsErr<B, F, P>>)
        requires
            old(self).wf(),
        ensures
            exists|id: TypeId| old(self).attaches_group(*final(self), id, entity_group@, outcome),
    {
        let id = component_id::<C>();
        let c = match self.component_column(&id) {
            Some(c) => c,
            None => {
                let outcome = Err(EcsErr::MissingComponent(id));
                assert(old(self).attaches_group(*self, id, entity_group@, outcome));
                return outcome;
            },
        };
        let ghost alive = self.masks().dom();
        let mut j: usize = 0;
        proof {
            assert(entity_group@.take(0).to_set() =~= Set::<Entity>::empty());
            self.lemma_attached_none(c as nat);
        }
        while j < entity_group.len()
            invariant
                j <= entity_group@.len(),
                c < old(self).component_count(),
                old(self).wf(),
                old(self).schema().position(id) == Some(c as nat),
                old(self).evolves_to(*self),
                alive == old(self).masks().dom(),
                forall|k: int| 0 <= k < j ==> alive.contains(#[trigger] entity_group@[k]),
                old(self).attached_to(*self, c as nat, entity_group@.take(j as int).to_set()),
            decreases entity_group@.len() - j,
        {
            let entity = entity_group[j];
            let mask = match self.entity_bit_mask(entity) {
                Some(mask) => mask,
                None => {
                    proof {
                        lemma_live_prefix_is(alive, entity_group@, j as int);
                    }
                    let outcome = Err(EcsErr::MissingEntity(entity));
                    assert(old(self).attaches_group(*self, id, entity_group@, outcome));
                    return outcome;
                },
            };
            let ghost middle = *self;
            let cell = ComponentCell::new(component.clone());
            self.attach_cell(c, cell, entity, mask);
            proof {
                entity_group@.take(j as int).lemma_push_to_set_commute(entity);
                assert(entity_group@.take(j + 1) =~= entity_group@.take(j as int).push(entity));
                old(self).lemma_attached_step(
                    middle,
                    *self,
                    c as nat,
                    entity_group@.take(j as int).to_set(),
                    entity,
                    cell,
                );
            }
            j = j + 1;
        }
        proof {
            lemma_live_prefix_is(alive, entity_group@, j as int);
            assert(entity_group@.take(j as int) =~= entity_group@);
        }
        let outcome = Ok(());
        assert(old(self).attaches_group(*self, id, entity_group@, outcome));
        outcome
    }

    /// Attaches the shared cell `component` to each entity of the group.
    /// The entities are taken one after the other; the first that is not
    /// alive ends the work with an error.
    pub fn add_shared_component_to_entity_group<C: Component>(
        &mut self,
        component: &Rc<RefCell<C>>,
        entity_group: &[Entity],
    ) -> (outcome: Result<(), EcsErr<B, F, P>>)
        requires
            old(self).wf(),
        ensures
            exists|id: TypeId| old(self).attaches_group(*final(self), id, entity_group@, outcome),
    {
        let id = component_id::<C>();
        let cell = ComponentCell::erase(component);
        let outcome = self.add_cell_to_entity_group(&id, &cell, entity_group);
        assert(old(self).attaches_group(*self, id, entity_group@, outcome));
        outcome
    }

    /// Attaches `cell` to each entity of the group as its component of the
    /// type whose identity is `id`; all of them then share the one cell.
    /// The entities are taken one after the other; the first that is not
    /// alive ends the work with an error.
    pub fn add_cell_to_entity_group(
        &mut self,
        id: &TypeId,
        cell: &ComponentCell,
        entity_group: &[Entity],
    ) -> (outcome: Result<(), EcsErr<B, F, P>>)
        requires
            old(self).wf(),
        ensures
            old(self).attaches_group(*final(self), *id, entity_group@, outcome),
            old(self).schema().position(*id) matches Some(position) ==> forall|k: int|
                0 <= k < live_prefix(old(self).masks().dom(), entity_group@)
                    ==> final(self).columns()[position as int][#[trigger] entity_group@[k]]
                    == *cell,
    {
        let c = match self.component_column(id) {
            Some(c) => c,
            None => {
                return Err(EcsErr::MissingComponent(*id));
            },
        };
        let ghost alive = self.masks().dom();
        let mut j: usize = 0;
        proof {
            assert(entity_group@.take(0).to_set() =~= Set::<Entity>::empty());
            self.lemma_attached_none(c as nat);
        }
        while j < entity_group.len()
            invariant
                j <= entity_group@.len(),
                c < old(self).component_count(),
                old(self).wf(),
                old(self).schema().position(*id) == Some(c as nat),
                old(self).evolves_to(*self),
                alive == old(self).masks().dom(),
                forall|k: int| 0 <= k < j ==> alive.contains(#[trigger] entity_group@[k]),
                old(self).attached_to(*self, c as nat, entity_group@.take(j as int).to_set()),
                forall|k: int|
                    0 <= k < j ==> self.columns()[c as int][#[trigger] entity_group@[k]] == *cell,
            decreases entity_group@.len() - j,
        {
            let entity = entity_group[j];
            let mask = match self.entity_bit_mask(entity) {
                Some(mask) => mask,
                None => {
                    proof {
                        lemma_live_prefix_is(alive, entity_group@, j as int);
                    }
                    return Err(EcsErr::MissingEntity(entity));
                },
            };
            let ghost middle = *self;
            self.attach_cell(c, cell.share(), entity, mask);
            proof {
                entity_group@.take(j as int).lemma_push_to_set_commute(entity);
                assert(entity_group@.take(j + 1) =~= entity_group@.take(j as int).push(entity));
                old(self).lemma_attached_step(
                    middle,
                    *self,
                    c as nat,
                    entity_group@.take(j as int).to_set(),
                    entity,
                    *cell,
                );
            }
            j = j + 1;
        }
        proof {
            lemma_live_prefix_is(alive, entity_group@, j as int);
            assert(entity_group@.take(j as int) =~= entity_group@);
        }
        Ok(())
    }

    /// The cell that `entity` carries for the component type `id`, if any.
    pub open spec fn cell_of(&self, id: TypeId, entity: Entity) -> Result<
        Option<ComponentCell>,
        EcsErr<B, F, P>,
    > {
        match self.schema().position(id) {
            None => Err(EcsErr::MissingComponent(id)),
            Some(position) => if !self.alive(entity) {
                Err(EcsErr::MissingEntity(entity))
            } else {
                Ok(self.columns()[position as int].get(entity))
            },
        }
    }

    /// For each entity of `group`, the cell that it carries for the
    /// component type `id`, if any; the first entity that is not alive
    /// fails the whole group.
    pub open spec fn some_cells_of(&self, id: TypeId, group: Seq<Entity>) -> Result<
        Seq<Option<ComponentCell>>,
        EcsErr<B, F, P>,
    > {
        match self.schema().position(id) {
            None => Err(EcsErr::MissingComponent(id)),
            Some(position) => {
                let prefix = live_prefix(self.masks().dom(), group);
                if prefix < group.len() {
                    Err(EcsErr::MissingEntity(group[prefix]))
                } else {
                    Ok(Seq::new(group.len(), |j: int| self.columns()[position as int].get(group[j])))
                }
            },
        }
    }

    /// For each entity of `group`, the cell that it carries for the
    /// component type `id`; the first entity that is not alive or carries
    /// none fails the whole group.
    pub open spec fn cells_of(&self, id: TypeId, group: Seq<Entity>) -> Result<
        Seq<ComponentCell>,
        EcsErr<B, F, P>,
    > {
        match self.schema().position(id) {
            None => Err(EcsErr::MissingComponent(id)),
            Some(position) => {
                let prefix = live_prefix(self.columns()[position as int].dom(), group);
                if prefix < group.len() {
                    if self.alive(group[prefix]) {
                        Err(EcsErr::MissingComponentToEntity(id, group[prefix]))
                    } else {
                        Err(EcsErr::MissingEntity(group[prefix]))
                    }
                } else {
                    Ok(Seq::new(group.len(), |j: int| self.columns()[position as int][group[j]]))
                }
            },
        }
    }

    /// The cell that `entity` carries for the component type whose
    /// identity is `id`, if any.
    pub fn get_entity_cell(&self, id: &TypeId, entity: Entity) -> (cell: Result<
        Option<&ComponentCell>,
        EcsErr<B, F, P>,
    >)
        requires
            self.wf(),
        ensures
            match cell {
                Ok(Some(cell)) => self.cell_of(*id, entity) == Ok::<
                    Option<ComponentCell>,
                    EcsErr<B, F, P>,
                >(Some(*cell)),
                Ok(None) => self.cell_of(*id, entity) == Ok::<Option<ComponentCell>, EcsErr<B, F, P>>(
                    None,
                ),
                Err(error) => self.cell_of(*id, entity) == Err::<
                    Option<ComponentCell>,
                    EcsErr<B, F, P>,
                >(error),
            },
    {
        let c = match self.component_column(id) {
            Some(c) => c,
            None => {
                return Err(EcsErr::MissingComponent(*id));
            },
        };
        if self.entity_bit_mask(entity).is_none() {
            return Err(EcsErr::MissingEntity(entity));
        }
        Ok(self.component_columns[c].get(&entity.0))
    }

    /// For each entity of the group, the cell that it carries for the
    /// component type whose identity is `id`, if any.
    pub fn get_some_entity_group_cell(&self, id: &TypeId, entity_group: &[Entity]) -> (cells: Result<
        Vec<Option<ComponentCell>>,
        EcsErr<B, F, P>,
    >)
        requires
            self.wf(),
        ensures
            same_answers(cells, self.some_cells_of(*id, entity_group@)),
    {
        let c = match self.component_column(id) {
            Some(c) => c,
            None => {
                return Err(EcsErr::MissingComponent(*id));
            },
        };
        let mut cells: Vec<Option<ComponentCell>> = Vec::new();
        let mut j: usize = 0;
        while j < entity_group.len()
            invariant
                self.wf(),
                j <= entity_group@.len(),
                c < self.component_count(),
                self.schema().position(*id) == Some(c as nat),
                cells@.len() == j,
                forall|k: int| 0 <= k < j ==> self.alive(#[trigger] entity_group@[k]),
                forall|k: int|
                    0 <= k < j ==> #[trigger] cells@[k] == self.columns()[c as int].get(
                        entity_group@[k],
                    ),
            decreases entity_group@.len() - j,
        {
            let entity = entity_group[j];
            if self.entity_bit_mask(entity).is_none() {
                proof {
                    lemma_live_prefix_is(self.masks().dom(), entity_group@, j as int);
                }
                return Err(EcsErr::MissingEntity(entity));
            }
            match self.component_columns[c].get(&entity.0) {
                Some(cell) => {
                    cells.push(Some(cell.share()));
                },
                None => {
                    cells.push(None);
                },
            }
            j = j + 1;
        }
        proof {
            lemma_live_prefix_is(self.masks().dom(), entity_group@, j as int);
            assert(cells@ =~= Seq::new(
                entity_group@.len(),
                |j: int| self.columns()[c as int].get(entity_group@[j]),
            ));
        }
        Ok(cells)
    }

    /// For each entity of the group, the cell that it carries for the
    /// component type whose identity is `id`.
    pub fn get_entity_group_cell(&self, id: &TypeId, entity_group: &[Entity]) -> (cells: Result<
        Vec<ComponentCell>,
        EcsErr<B, F, P>,
    >)
        requires
            self.wf(),
        ensures
            same_answers(cells, self.cells_of(*id, entity_group@)),
    {
        let c = match self.component_column(id) {
            Some(c) => c,
            None => {
                return Err(EcsErr::MissingComponent(*id));
            },
        };
        let mut cells: Vec<ComponentCell> = Vec::new();
        let mut j: usize = 0;
        while j < entity_group.len()
            invariant
                self.wf(),
                j <= entity_group@.len(),
                c < self.component_count(),
                self.schema().position(*id) == Some(c as nat),
                cells@.len() == j,
                forall|k: int|
                    0 <= k < j ==> self.columns()[c as int].dom().contains(
                        #[trigger] entity_group@[k],
                    ),
                forall|k: int|
                    0 <= k < j ==> #[trigger] cells@[k] == self.columns()[c as int][entity_group@[k]],
            decreases entity_group@.len() - j,
        {
            let entity = entity_group[j];
            if self.entity_bit_mask(entity).is_none() {
                proof {
                    lemma_live_prefix_is(self.columns()[c as int].dom(), entity_group@, j as int);
                }
                return Err(EcsErr::MissingEntity(entity));
            }
            match self.component_columns[c].get(&entity.0) {
                Some(cell) => {
                    cells.push(cell.share());
                },
                None => {
                    proof {
                        lemma_live_prefix_is(
                            self.columns()[c as int].dom(),
                            entity_group@,
                            j as int,
                        );
                    }
                    return Err(EcsErr::MissingComponentToEntity(*id, entity));
                },
            }
            j = j + 1;
        }
        proof {
            lemma_live_prefix_is(self.columns()[c as int].dom(), entity_group@, j as int);
            assert(cells@ =~= Seq::new(
                entity_group@.len(),
                |j: int| self.columns()[c as int][entity_group@[j]],
            ));
        }
        Ok(cells)
    }

    /// Whether `got` reports that a cell of the component type `id` holds
    /// a payload of another type.
    pub open spec fn fails_to_downcast<T>(&self, id: TypeId, got: Result<T, EcsErr<B, F, P>>) -> bool {
        got matches Err(EcsErr::FailedToDowncastComponentCol(mask)) && Some(mask.bits())
            == self.component_bits(id)
    }

    /// What `get_entity_component` answers for the component type `id`:
    /// the errors and the absence are those of `cell_of`; where `entity`
    /// carries a cell, its payload either has the type asked for or the
    /// failure is reported.
    pub open spec fn reads<C>(
        &self,
        id: TypeId,
        entity: Entity,
        got: Result<Option<Rc<RefCell<C>>>, EcsErr<B, F, P>>,
    ) -> bool {
        match self.cell_of(id, entity) {
            Err(error) => got == Err::<Option<Rc<RefCell<C>>>, EcsErr<B, F, P>>(error),
            Ok(None) => got == Ok::<Option<Rc<RefCell<C>>>, EcsErr<B, F, P>>(None),
            Ok(Some(_)) => got matches Ok(Some(_)) || self.fails_to_downcast(id, got),
        }
    }

    /// What `get_some_entity_group_component` answers for the component
    /// type `id`.
    pub open spec fn reads_some_group<C>(
        &self,
        id: TypeId,
        group: Seq<Entity>,
        got: Result<Vec<Option<Rc<RefCell<C>>>>, EcsErr<B, F, P>>,
    ) -> bool {
        match self.some_cells_of(id, group) {
            Err(error) => got == Err::<Vec<Option<Rc<RefCell<C>>>>, EcsErr<B, F, P>>(error),
            Ok(cells) => {
                ||| got matches Ok(found) && found@.len() == cells.len() && forall|j: int|
                    0 <= j < cells.len() ==> (#[trigger] found@[j]).is_some() == cells[j].is_some()
                ||| self.fails_to_downcast(id, got)
            },
        }
    }

    /// What `get_entity_group_component` answers for the component type
    /// `id`.
    pub open spec fn reads_group<C>(
        &self,
        id: TypeId,
        group: Seq<Entity>,
        got: Result<Vec<Rc<RefCell<C>>>, EcsErr<B, F, P>>,
    ) -> bool {
        match self.cells_of(id, group) {
            Err(error) => got == Err::<Vec<Rc<RefCell<C>>>, EcsErr<B, F, P>>(error),
            Ok(cells) => {
                ||| got matches Ok(found) && found@.len() == cells.len()
                ||| self.fails_to_downcast(id, got)
            },
        }
    }

    /// The shared handle to the component of type `C` that `entity`
    /// carries, if it carries one.
    pub fn get_entity_component<C: Component>(&self, entity: Entity) -> (component: Result<
        Option<Rc<RefCell<C>>>,
        EcsErr<B, F, P>,
    >)
        requires
            self.wf(),
        ensures
            exists|id: TypeId| self.reads(id, entity, component),
    {
        let id = component_id::<C>();
        let component = match self.get_entity_cell(&id, entity) {
            Err(error) => Err(error),
            Ok(None) => Ok(None),
            Ok(Some(cell)) => match cell.share().recover::<C>() {
                Some(shared) => Ok(Some(shared)),
                None => match self.component_bit_mask_of(&id) {
                    Ok(mask) => Err(EcsErr::FailedToDowncastComponentCol(mask)),
                    Err(error) => Err(error),
                },
            },
        };
        assert(self.reads(id, entity, component));
        component
    }

    /// For each entity of the group, the shared handle to the component of
    /// type `C` that it carries, if it carries one.
    pub fn get_some_entity_group_component<C: Component>(&self, entity_group: &[Entity]) -> (components:
        Result<Vec<Option<Rc<RefCell<C>>>>, EcsErr<B, F, P>>)
        requires
            self.wf(),
        ensures
            exists|id: TypeId| self.reads_some_group(id, entity_group@, components),
    {
        let id = component_id::<C>();
        let cells = match self.get_some_entity_group_cell(&id, entity_group) {
            Ok(cells) => cells,
            Err(error) => {
                let components = Err(error);
                assert(self.reads_some_group(id, entity_group@, components));
                return components;
            },
        };
        let mut components: Vec<Option<Rc<RefCell<C>>>> = Vec::new();
        let mut j: usize = 0;
        while j < cells.len()
            invariant
                self.wf(),
                j <= cells@.len(),
                components@.len() == j,
                self.some_cells_of(id, entity_group@) == Ok::<
                    Seq<Option<ComponentCell>>,
                    EcsErr<B, F, P>,
                >(cells@),
                forall|k: int|
                    0 <= k < j ==> (#[trigger] components@[k]).is_some() == cells@[k].is_some(),
            decreases cells@.len() - j,
        {
            match &cells[j] {
                None => {
                    components.push(None);
                },
                Some(cell) => match cell.share().recover::<C>() {
                    Some(shared) => {
                        components.push(Some(shared));
                    },
                    None => {
                        let failed = match self.component_bit_mask_of(&id) {
                            Ok(mask) => Err(EcsErr::FailedToDowncastComponentCol(mask)),
                            Err(error) => Err(error),
                        };
                        assert(self.reads_some_group(id, entity_group@, failed));
                        return failed;
                    },
                },
            }
            j = j + 1;
        }
        let components = Ok(components);
        assert(self.reads_some_group(id, entity_group@, components));
        components
    }

    /// For each entity of the group, the shared handle to the component of
    /// type `C` that it carries.  Fails when one of them carries none.
    pub fn get_entity_group_component<C: Component>(&self, entity_group: &[Entity]) -> (components:
        Result<Vec<Rc<RefCell<C>>>, EcsErr<B, F, P>>)
        requires
            self.wf(),
        ensures
            exists|id: TypeId| self.reads_group(id, entity_group@, components),
    {
        let id = component_id::<C>();
        let cells = match self.get_entity_group_cell(&id, entity_group) {
            Ok(cells) => cells,
            Err(error) => {
                let components = Err(error);
                assert(self.reads_group(id, entity_group@, components));
                return components;
            },
        };
        let mut components: Vec<Rc<RefCell<C>>> = Vec::new();
        let mut j: usize = 0;
        while j < cells.len()
            invariant
                self.wf(),
                j <= cells@.len(),
                components@.len() == j,
                self.cells_of(id, entity_group@) == Ok::<Seq<ComponentCell>, EcsErr<B, F, P>>(
                    cells@,
                ),
            decreases cells@.len() - j,
        {
            match cells[j].share().recover::<C>() {
                Some(shared) => {
                    components.push(shared);
                },
                None => {
                    let failed = match self.component_bit_mask_of(&id) {
                        Ok(mask) => Err(EcsErr::FailedToDowncastComponentCol(mask)),
                        Err(error) => Err(error),
                    };
                    assert(self.reads_group(id, entity_group@, failed));
                    return failed;
                },
            }
            j = j + 1;
        }
        let components = Ok(components);
        assert(self.reads_group(id, entity_group@, components));
        components
    }

    /// The cell of the first component pointer registered under a key
    /// equal to `id`.
    pub fn get_pointer_cell(&self, id: &P) -> (cell: Option<&ComponentCell>)
        ensures
            cell matches Some(cell) ==> exists|i: int|
                0 <= i < self.pointers().len() && (#[trigger] self.pointers()[i]).1 == *cell,
            P::obeys_eq_spec() ==> match first_pointer(self.pointers(), *id) {
                Some(i) => 0 <= i < self.pointers().len() && cell == Some(&self.pointers()[i].1),
                None => cell.is_none(),
            },
    {
        match find_pointer(&self.component_pointers, id) {
            Some(i) => {
                assert(self.pointers()[i as int].1 == self.component_pointers@[i as int].1);
                Some(&self.component_pointers[i].1)
            },
            None => None,
        }
    }

    /// The shared handle to the component of type `C` registered under
    /// the key `id`.
    pub fn get_pointer_component<C: Component>(&self, id: P) -> (component: Result<
        Rc<RefCell<C>>,
        EcsErr<B, F, P>,
    >)
        ensures
            component is Ok || component == Err::<Rc<RefCell<C>>, EcsErr<B, F, P>>(
                EcsErr::MissingComponentPtr(id),
            ) || component == Err::<Rc<RefCell<C>>, EcsErr<B, F, P>>(EcsErr::FailedToDowncastPtr(id)),
            P::obeys_eq_spec() ==> (first_pointer(self.pointers(), id).is_none() <==> component
                == Err::<Rc<RefCell<C>>, EcsErr<B, F, P>>(EcsErr::MissingComponentPtr(id))),
    {
        match self.get_pointer_cell(&id) {
            None => Err(EcsErr::MissingComponentPtr(id)),
            Some(cell) => match cell.share().recover::<C>() {
                Some(shared) => Ok(shared),
                None => Err(EcsErr::FailedToDowncastPtr(id)),
            },
        }
    }

    /// The world after the component of the type `id` was detached from
    /// `entity`.
    pub open spec fn detaches(
        &self,
        after: Self,
        id: TypeId,
        entity: Entity,
        outcome: Result<(), EcsErr<B, F, P>>,
    ) -> bool {
        &&& self.evolves_to(after)
        &&& match self.cell_of(id, entity) {
            Err(error) => {
                &&& after.masks() == self.masks()
                &&& after.columns() == self.columns()
                &&& outcome == Err::<(), EcsErr<B, F, P>>(error)
            },
            Ok(None) => {
                &&& after.masks() == self.masks()
                &&& after.columns() == self.columns()
                &&& outcome == Err::<(), EcsErr<B, F, P>>(
                    EcsErr::MissingComponentToEntity(id, entity),
                )
            },
            Ok(Some(_)) => {
                let position = self.schema().position(id).unwrap();
                &&& after.masks() == self.masks().insert(
                    entity,
                    self.masks()[entity].remove(position),
                )
                &&& after.columns() == self.columns().update(
                    position as int,
                    self.columns()[position as int].remove(entity),
                )
                &&& outcome == Ok::<(), EcsErr<B, F, P>>(())
            },
        }
    }

    /// The world after the cell at bit `position` was detached from each
    /// entity of `targets`.
    pub open spec fn detached_from(&self, after: Self, position: nat, targets: Set<Entity>) -> bool {
        &&& after.masks() == cleared_on(self.masks(), targets, set![position])
        &&& after.columns() == self.columns().update(
            position as int,
            self.columns()[position as int].remove_keys(targets),
        )
    }

    /// The world after the component of the type `id` was detached from
    /// the entities of `group`, one after the other, up to the first that
    /// does not carry it (any more).
    pub open spec fn detaches_group(
        &self,
        after: Self,
        id: TypeId,
        group: Seq<Entity>,
        outcome: Result<(), EcsErr<B, F, P>>,
    ) -> bool {
        &&& self.evolves_to(after)
        &&& match self.schema().position(id) {
            None => {
                &&& after.masks() == self.masks()
                &&& after.columns() == self.columns()
                &&& outcome == Err::<(), EcsErr<B, F, P>>(EcsErr::MissingComponent(id))
            },
            Some(position) => {
                let prefix = distinct_prefix(self.columns()[position as int].dom(), group);
                &&& self.detached_from(after, position, group.take(prefix).to_set())
                &&& outcome == if prefix == group.len() {
                    Ok::<(), EcsErr<B, F, P>>(())
                } else if self.alive(group[prefix]) {
                    Err::<(), EcsErr<B, F, P>>(
                        EcsErr::MissingComponentToEntity(id, group[prefix]),
                    )
                } else {
                    Err::<(), EcsErr<B, F, P>>(EcsErr::MissingEntity(group[prefix]))
                }
            },
        }
    }

    /// Takes the cell of `entity`, which is alive, out of column `c`, and
    /// clears bit `c` on its mask.
    fn detach_cell(&mut self, c: usize, entity: Entity, mask: B)
        requires
            old(self).wf(),
            c < old(self).component_count(),
            old(self).alive(entity),
            old(self).entities@[entity.0] == mask,
        ensures
            old(self).evolves_to(*final(self)),
            final(self).masks() == old(self).masks().insert(
                entity,
                old(self).masks()[entity].remove(c as nat),
            ),
            final(self).columns() == old(self).columns().update(
                c as int,
                old(self).columns()[c as int].remove(entity),
            ),
    {
        let width = B::width();
        let mut mask = mask;
        mask.unset_bit_mask(B::bit(c as u8));
        self.entities.insert(entity.0, mask);
        self.component_columns[c].remove(&entity.0);
        proof {
            assert(mask.bits() =~= old(self).masks()[entity].remove(c as nat));
            assert(self.masks() =~~= old(self).masks().insert(
                entity,
                old(self).masks()[entity].remove(c as nat),
            ));
            assert(self.columns()[c as int] =~= old(self).columns()[c as int].remove(entity));
            assert(self.columns() =~= old(self).columns().update(
                c as int,
                old(self).columns()[c as int].remove(entity),
            ));
            assert forall|k: int, other: Entity| 0 <= k < self.columns().len() implies (
            #[trigger] self.columns()[k].contains_key(other) <==> self.alive(other)
                && self.masks()[other].contains(k as nat)) by {
                assert(old(self).columns()[k].contains_key(other) <==> old(self).alive(other) && old(self).masks()[other].contains(k as nat));
            }
            assert forall|other: Entity, bit: nat|
                self.alive(other) && #[trigger] self.masks()[other].contains(bit) implies bit
                < self.component_count() || self.schema().covers(
                (bit - self.component_count()) as nat,
            ) by {
                assert(old(self).masks()[other].contains(bit));
            }
            assert forall|other: Entity| #[trigger] self.alive(other) implies other.0
                < self.next_id() by {
                assert(old(self).alive(other));
            }
        }
    }

    /// One more detachment after those of `detached_from`.
    proof fn lemma_detached_step(
        self,
        middle: Self,
        after: Self,
        position: nat,
        targets: Set<Entity>,
        entity: Entity,
    )
        requires
            position < self.columns().len(),
            self.detached_from(middle, position, targets),
            self.alive(entity),
            after.masks() == middle.masks().insert(entity, middle.masks()[entity].remove(position)),
            after.columns() == middle.columns().update(
                position as int,
                middle.columns()[position as int].remove(entity),
            ),
        ensures
            self.detached_from(after, position, targets.insert(entity)),
    {
        assert(after.masks() =~~= cleared_on(self.masks(), targets.insert(entity), set![position]));
        assert(after.columns()[position as int] =~= self.columns()[position as int].remove_keys(
            targets.insert(entity),
        ));
        assert(after.columns() =~= self.columns().update(
            position as int,
            self.columns()[position as int].remove_keys(targets.insert(entity)),
        ));
    }

    /// Detaches the component of type `C` from `entity`, which must carry
    /// one.
    pub fn delete_entity_component<C: Component>(&mut self, entity: Entity) -> (outcome: Result<
        (),
        EcsErr<B, F, P>,
    >)
        requires
            old(self).wf(),
        ensures
            exists|id: TypeId| old(self).detaches(*final(self), id, entity, outcome),
    {
        let id = component_id::<C>();
        let outcome = self.delete_entity_component_of(&id, entity);
        assert(old(self).detaches(*self, id, entity, outcome));
        outcome
    }

    /// Detaches the component of the type whose identity is `id` from
    /// `entity`, which must carry one.
    pub fn delete_entity_component_of(&mut self, id: &TypeId, entity: Entity) -> (outcome: Result<
        (),
        EcsErr<B, F, P>,
    >)
        requires
            old(self).wf(),
        ensures
            old(self).detaches(*final(self), *id, entity, outcome),
    {
        let c = match self.component_column(id) {
            Some(c) => c,
            None => {
                return Err(EcsErr::MissingComponent(*id));
            },
        };
        let mask = match self.entity_bit_mask(entity) {
            Some(mask) => mask,
            None => {
                return Err(EcsErr::MissingEntity(entity));
            },
        };
        if !self.component_columns[c].contains_key(&entity.0) {
            return Err(EcsErr::MissingComponentToEntity(*id, entity));
        }
        self.detach_cell(c, entity, mask);
        Ok(())
    }

    /// Detaches the component of type `C` from the entities of the group,
    /// one after the other; the first that is not alive or does not carry
    /// one ends the work with an error.
    pub fn delete_entity_group_component<C: Component>(&mut self, entity_group: &[Entity]) -> (outcome:
        Result<(), EcsErr<B, F, P>>)
        requires
            old(self).wf(),
        ensures
            exists|id: TypeId| old(self).detaches_group(*final(self), id, entity_group@, outcome),
    {
        let id = component_id::<C>();
        let outcome = self.delete_entity_group_component_of(&id, entity_group);
        assert(old(self).detaches_group(*self, id, entity_group@, outcome));
        outcome
    }

    /// Detaches the component of the type whose identity is `id` from the
    /// entities of the group, one after the other; the first that is not
    /// alive or does not carry one ends the work with an error.
    pub fn delete_entity_group_component_of(&mut self, id: &TypeId, entity_group: &[Entity]) -> (outcome:
        Result<(), EcsErr<B, F, P>>)
        requires
            old(self).wf(),
        ensures
            old(self).detaches_group(*final(self), *id, entity_group@, outcome),
    {
        let c = match self.component_column(id) {
            Some(c) => c,
            None => {
                return Err(EcsErr::MissingComponent(*id));
            },
        };
        let ghost carriers = self.columns()[c as int].dom();
        let mut j: usize = 0;
        proof {
            assert(entity_group@.take(0).to_set() =~= Set::<Entity>::empty());
            assert(self.masks() =~~= cleared_on(self.masks(), Set::<Entity>::empty(), set![c as nat]));
            assert(self.columns()[c as int] =~= self.columns()[c as int].remove_keys(
                Set::<Entity>::empty(),
            ));
            assert(self.columns() =~= self.columns().update(c as int, self.columns()[c as int]));
        }
        while j < entity_group.len()
            invariant
                j <= entity_group@.len(),
                c < old(self).component_count(),
                old(self).wf(),
                old(self).schema().position(*id) == Some(c as nat),
                old(self).evolves_to(*self),
                carriers == old(self).columns()[c as int].dom(),
                forall|k: int|
                    0 <= k < j ==> carriers.contains(#[trigger] entity_group@[k])
                        && !entity_group@.take(k).contains(entity_group@[k]),
                old(self).detached_from(*self, c as nat, entity_group@.take(j as int).to_set()),
            decreases entity_group@.len() - j,
        {
            let entity = entity_group[j];
            let mask = match self.entity_bit_mask(entity) {
                Some(mask) => mask,
                None => {
                    proof {
                        lemma_distinct_prefix_is(carriers, entity_group@, j as int);
                    }
                    return Err(EcsErr::MissingEntity(entity));
                },
            };
            let ghost done = entity_group@.take(j as int);
            proof {
                assert(self.columns()[c as int] == old(self).columns()[c as int].remove_keys(
                    done.to_set(),
                ));
                assert(self.columns()[c as int].contains_key(entity) <==> carriers.contains(entity)
                    && !done.to_set().contains(entity));
                assert(done.to_set().contains(entity) <==> done.contains(entity));
            }
            if !self.component_columns[c].contains_key(&entity.0) {
                proof {
                    lemma_distinct_prefix_is(carriers, entity_group@, j as int);
                }
                return Err(EcsErr::MissingComponentToEntity(*id, entity));
            }
            let ghost middle = *self;
            self.detach_cell(c, entity, mask);
            proof {
                entity_group@.take(j as int).lemma_push_to_set_commute(entity);
                assert(entity_group@.take(j + 1) =~= entity_group@.take(j as int).push(entity));
                old(self).lemma_detached_step(
                    middle,
                    *self,
                    c as nat,
                    entity_group@.take(j as int).to_set(),
                    entity,
                );
            }
            j = j + 1;
        }
        proof {
            lemma_distinct_prefix_is(carriers, entity_group@, j as int);
            assert(entity_group@.take(j as int) =~= entity_group@);
        }
        Ok(())
    }

    /// The world after the entities of `targets` were deleted with all
    /// their cells.
    pub open spec fn deleted(&self, after: Self, targets: Set<Entity>) -> bool {
        &&& after.masks() == self.masks().remove_keys(targets)
        &&& after.columns() == Seq::new(
            self.columns().len(),
            |c: int| self.columns()[c].remove_keys(targets),
        )
    }

    /// The world after `entity` was deleted.
    pub open spec fn deletes(&self, after: Self, entity: Entity, outcome: Result<(), EcsErr<B, F, P>>) -> bool {
        &&& self.evolves_to(after)
        &&& if self.alive(entity) {
            &&& self.deleted(after, set![entity])
            &&& outcome == Ok::<(), EcsErr<B, F, P>>(())
        } else {
            &&& after.masks() == self.masks()
            &&& after.columns() == self.columns()
            &&& outcome == Err::<(), EcsErr<B, F, P>>(EcsErr::MissingEntity(entity))
        }
    }

    /// The world after the entities of `group` were deleted, one after the
    /// other, up to the first that is not alive (any more).
    pub open spec fn deletes_group(
        &self,
        after: Self,
        group: Seq<Entity>,
        outcome: Result<(), EcsErr<B, F, P>>,
    ) -> bool {
        let prefix = distinct_prefix(self.masks().dom(), group);
        &&& self.evolves_to(after)
        &&& self.deleted(after, group.take(prefix).to_set())
        &&& outcome == if prefix < group.len() {
            Err::<(), EcsErr<B, F, P>>(EcsErr::MissingEntity(group[prefix]))
        } else {
            Ok::<(), EcsErr<B, F, P>>(())
        }
    }

    /// Removes `entity`, which is alive, from every column whose bit its
    /// mask has, and then from the entities.
    fn remove_entity(&mut self, entity: Entity, mask: B)
        requires
            old(self).wf(),
            old(self).alive(entity),
            old(self).entities@[entity.0] == mask,
        ensures
            old(self).evolves_to(*final(self)),
            old(self).deleted(*final(self), set![entity]),
    {
        let width = B::width();
        let count = self.component_columns.len();
        let mut c: usize = 0;
        while c < count
            invariant
                c <= count,
                count == old(self).component_columns@.len(),
                count <= width,
                width == B::bit_width(),
                old(self).wf(),
                old(self).alive(entity),
                old(self).entities@[entity.0] == mask,
                self.schema == old(self).schema,
                self.component_pointers == old(self).component_pointers,
                self.entities == old(self).entities,
                self.next_entity_id == old(self).next_entity_id,
                self.component_columns@.len() == count,
                forall|k: int|
                    0 <= k < c ==> (#[trigger] self.component_columns@[k])@ == old(self).component_columns@[k]@.remove(entity.0),
                forall|k: int|
                    c <= k < count ==> #[trigger] self.component_columns@[k] == old(self).component_columns@[k],
            decreases count - c,
        {
            let ghost column = self.component_columns@[c as int]@;
            let bit = B::bit(c as u8);
            if mask.has_bit_mask(bit) {
                self.component_columns[c].remove(&entity.0);
            } else {
                proof {
                    assert(bit.bits() =~= set![c as nat]);
                    assert(!mask.bits().contains(c as nat));
                    assert(old(self).columns()[c as int].contains_key(entity) <==> old(self).alive(
                        entity,
                    ) && old(self).masks()[entity].contains(c as nat));
                    assert(!column.contains_key(entity.0));
                    assert(column =~= column.remove(entity.0));
                }
            }
            c = c + 1;
        }
        self.entities.remove(&entity.0);
        proof {
            assert(self.masks() =~= old(self).masks().remove_keys(set![entity]));
            assert forall|k: int| 0 <= k < self.columns().len() implies #[trigger] self.columns()[k]
                == old(self).columns()[k].remove_keys(set![entity]) by {
                assert(self.columns()[k] =~= old(self).columns()[k].remove_keys(set![entity]));
            }
            assert(self.columns() =~= Seq::new(
                old(self).columns().len(),
                |c: int| old(self).columns()[c].remove_keys(set![entity]),
            ));
            assert forall|k: int, other: Entity| 0 <= k < self.columns().len() implies (
            #[trigger] self.columns()[k].contains_key(other) <==> self.alive(other)
                && self.masks()[other].contains(k as nat)) by {
                assert(old(self).columns()[k].contains_key(other) <==> old(self).alive(other) && old(self).masks()[other].contains(k as nat));
            }
            assert forall|other: Entity, bit: nat|
                self.alive(other) && #[trigger] self.masks()[other].contains(bit) implies bit
                < self.component_count() || self.schema().covers(
                (bit - self.component_count()) as nat,
            ) by {
                assert(old(self).masks()[other].contains(bit));
            }
            assert forall|other: Entity| #[trigger] self.alive(other) implies other.0
                < self.next_id() by {
                assert(old(self).alive(other));
            }
        }
    }

    /// One more deletion after those of `deleted`.
    proof fn lemma_deleted_step(self, middle: Self, after: Self, targets: Set<Entity>, entity: Entity)
        requires
            self.deleted(middle, targets),
            middle.deleted(after, set![entity]),
        ensures
            self.deleted(after, targets.insert(entity)),
    {
        assert(after.masks() =~= self.masks().remove_keys(targets.insert(entity)));
        assert forall|c: int| 0 <= c < self.columns().len() implies #[trigger] after.columns()[c]
            == self.columns()[c].remove_keys(targets.insert(entity)) by {
            assert(middle.columns()[c] == self.columns()[c].remove_keys(targets));
            assert(after.columns()[c] == middle.columns()[c].remove_keys(set![entity]));
            assert(after.columns()[c] =~= self.columns()[c].remove_keys(targets.insert(entity)));
        }
        assert(after.columns() =~= Seq::new(
            self.columns().len(),
            |c: int| self.columns()[c].remove_keys(targets.insert(entity)),
        ));
    }

    /// Deletes `entity` with every cell that it carries.  Columns whose
    /// bit the entity's mask lacks are left alone.
    pub fn delete_entity(&mut self, entity: Entity) -> (outcome: Result<(), EcsErr<B, F, P>>)
        requires
            old(self).wf(),
        ensures
            old(self).deletes(*final(self), entity, outcome),
    {
        let mask = match self.entity_bit_mask(entity) {
            Some(mask) => mask,
            None => {
                return Err(EcsErr::MissingEntity(entity));
            },
        };
        self.remove_entity(entity, mask);
        Ok(())
    }

    /// Deletes the entities of the group, one after the other; the first
    /// that is not alive ends the work with an error.
    pub fn delete_entity_group(&mut self, entity_group: &[Entity]) -> (outcome: Result<
        (),
        EcsErr<B, F, P>,
    >)
        requires
            old(self).wf(),
        ensures
            old(self).deletes_group(*final(self), entity_group@, outcome),
    {
        let ghost alive = self.masks().dom();
        let mut j: usize = 0;
        proof {
            assert(entity_group@.take(0).to_set() =~= Set::<Entity>::empty());
            assert(self.masks() =~= self.masks().remove_keys(Set::<Entity>::empty()));
            assert forall|c: int| 0 <= c < self.columns().len() implies #[trigger] self.columns()[c]
                == self.columns()[c].remove_keys(Set::<Entity>::empty()) by {
                assert(self.columns()[c] =~= self.columns()[c].remove_keys(Set::<Entity>::empty()));
            }
            assert(self.columns() =~= Seq::new(
                self.columns().len(),
                |c: int| self.columns()[c].remove_keys(Set::<Entity>::empty()),
            ));
        }
        while j < entity_group.len()
            invariant
                j <= entity_group@.len(),
                old(self).wf(),
                old(self).evolves_to(*self),
                alive == old(self).masks().dom(),
                forall|k: int|
                    0 <= k < j ==> alive.contains(#[trigger] entity_group@[k])
                        && !entity_group@.take(k).contains(entity_group@[k]),
                old(self).deleted(*self, entity_group@.take(j as int).to_set()),
            decreases entity_group@.len() - j,
        {
            let entity = entity_group[j];
            let ghost done = entity_group@.take(j as int);
            proof {
                assert(self.alive(entity) <==> alive.contains(entity) && !done.to_set().contains(
                    entity,
                ));
                assert(done.to_set().contains(entity) <==> done.contains(entity));
            }
            let mask = match self.entity_bit_mask(entity) {
                Some(mask) => mask,
                None => {
                    proof {
                        lemma_distinct_prefix_is(alive, entity_group@, j as int);
                    }
                    return Err(EcsErr::MissingEntity(entity));
                },
            };
            let ghost middle = *self;
            self.remove_entity(entity, mask);
            proof {
                done.lemma_push_to_set_commute(entity);
                assert(entity_group@.take(j + 1) =~= done.push(entity));
                old(self).lemma_deleted_step(middle, *self, done.to_set(), entity);
            }
            j = j + 1;
        }
        proof {
            lemma_distinct_prefix_is(alive, entity_group@, j as int);
            assert(entity_group@.take(j as int) =~= entity_group@);
        }
        Ok(())
    }

    /// The world after `entity` came alive with the mask `bits` and, for
    /// each position of `cells`, the cell given there.
    pub open spec fn commits(
        &self,
        after: Self,
        entity: Entity,
        bits: Set<nat>,
        cells: Map<usize, ComponentCell>,
    ) -> bool {
        &&& self.evolves_to(after)
        &&& after.masks() == self.masks().insert(entity, bits)
        &&& after.columns() == Seq::new(
            self.columns().len(),
            |c: int|
                if cells.contains_key(c as usize) {
                    self.columns()[c].insert(entity, cells[c as usize])
                } else {
                    self.columns()[c]
                },
        )
    }

    /// Makes `entity` alive with the mask `bit_mask` and the cells `cells`,
    /// one for each component bit of the mask.
    pub(crate) fn add_entity(
        &mut self,
        entity: Entity,
        bit_mask: B,
        cells: HashMap<usize, ComponentCell>,
    )
        requires
            old(self).wf(),
            !old(self).alive(entity),
            entity.0 < old(self).next_id(),
            forall|c: usize| #[trigger]
                cells@.contains_key(c) <==> c < old(self).component_count()
                    && bit_mask.bits().contains(c as nat),
            forall|bit: nat| #[trigger]
                bit_mask.bits().contains(bit) ==> bit < old(self).component_count() || old(self).schema().covers((bit - old(self).component_count()) as nat),
        ensures
            old(self).commits(*final(self), entity, bit_mask.bits(), cells@),
    {
        let mut pending = cells;
        let count = self.component_columns.len();
        let mut c: usize = 0;
        while c < count
            invariant
                c <= count,
                count == old(self).component_columns@.len(),
                old(self).wf(),
                !old(self).alive(entity),
                self.schema == old(self).schema,
                self.component_pointers == old(self).component_pointers,
                self.entities == old(self).entities,
                self.next_entity_id == old(self).next_entity_id,
                self.component_columns@.len() == count,
                forall|k: usize| k >= c ==> (#[trigger] pending@.contains_key(k) == cells@.contains_key(k)),
                forall|k: usize|
                    k >= c && cells@.contains_key(k) ==> #[trigger] pending@[k] == cells@[k],
                forall|k: int|
                    0 <= k < c ==> (#[trigger] self.component_columns@[k])@ == if cells@.contains_key(
                        k as usize,
                    ) {
                        old(self).component_columns@[k]@.insert(entity.0, cells@[k as usize])
                    } else {
                        old(self).component_columns@[k]@
                    },
                forall|k: int|
                    c <= k < count ==> #[trigger] self.component_columns@[k] == old(self).component_columns@[k],
            decreases count - c,
        {
            match pending.remove(&c) {
                Some(cell) => {
                    self.component_columns[c].insert(entity.0, cell);
                },
                None => {},
            }
            c = c + 1;
        }
        self.entities.insert(entity.0, bit_mask);
        proof {
            assert(self.masks() =~= old(self).masks().insert(entity, bit_mask.bits()));
            assert forall|k: int| 0 <= k < self.columns().len() implies #[trigger] self.columns()[k]
                == if cells@.contains_key(k as usize) {
                old(self).columns()[k].insert(entity, cells@[k as usize])
            } else {
                old(self).columns()[k]
            } by {
                if cells@.contains_key(k as usize) {
                    assert(self.columns()[k] =~= old(self).columns()[k].insert(
                        entity,
                        cells@[k as usize],
                    ));
                } else {
                    assert(self.columns()[k] =~= old(self).columns()[k]);
                }
            }
            assert(self.columns() =~= Seq::new(
                old(self).columns().len(),
                |c: int|
                    if cells@.contains_key(c as usize) {
                        old(self).columns()[c].insert(entity, cells@[c as usize])
                    } else {
                        old(self).columns()[c]
                    },
            ));
            assert forall|k: int, other: Entity| 0 <= k < self.columns().len() implies (
            #[trigger] self.columns()[k].contains_key(other) <==> self.alive(other)
                && self.masks()[other].contains(k as nat)) by {
                assert(old(self).columns()[k].contains_key(other) <==> old(self).alive(other) && old(self).masks()[other].contains(k as nat));
                assert(cells@.contains_key(k as usize) <==> bit_mask.bits().contains(k as nat));
            }
            assert forall|other: Entity, bit: nat|
                self.alive(other) && #[trigger] self.masks()[other].contains(bit) implies bit
                < self.component_count() || self.schema().covers(
                (bit - self.component_count()) as nat,
            ) by {
                if other != entity {
                    assert(old(self).masks()[other].contains(bit));
                }
            }
            assert forall|other: Entity| #[trigger] self.alive(other) implies other.0
                < self.next_id() by {
                if other != entity {
                    assert(old(self).alive(other));
                }
            }
        }
    }

    /// Takes the next counter value for a new entity and hands out the
    /// builder that collects what the entity will carry.  The entity comes
    /// alive when the builder is built.
    pub fn new_entity(&mut self) -> (builder: EntityBuilder<'_, B, F, P>)
        requires
            old(self).wf(),
            old(self).next_id() < usize::MAX,
        ensures
            builder.draft.wf(*builder.world),
            builder.draft.entity() == Entity(old(self).next_id() as usize),
            builder.draft.bits() == Set::<nat>::empty(),
            builder.draft.cells() == Map::<usize, ComponentCell>::empty(),
            builder.world.schema() == old(self).schema(),
            builder.world.pointers() == old(self).pointers(),
            builder.world.masks() == old(self).masks(),
            builder.world.columns() == old(self).columns(),
            builder.world.next_id() == old(self).next_id() + 1,
            *final(builder.world) == *final(self),
    {
        let id = self.next_entity_id;
        self.next_entity_id = id + 1;
        proof {
            assert(self.masks() =~= old(self).masks());
            assert(self.columns() =~= old(self).columns());
            assert forall|k: int, other: Entity| 0 <= k < self.columns().len() implies (
            #[trigger] self.columns()[k].contains_key(other) <==> self.alive(other)
                && self.masks()[other].contains(k as nat)) by {
                assert(old(self).columns()[k].contains_key(other) <==> old(self).alive(other) && old(self).masks()[other].contains(k as nat));
            }
            assert forall|other: Entity| #[trigger] self.alive(other) implies other.0
                < self.next_id() by {
                assert(old(self).alive(other));
            }
            assert(!self.alive(Entity(id))) by {
                if self.alive(Entity(id)) {
                    assert(old(self).alive(Entity(id)));
                }
            }
        }
        EntityBuilder::new(id, self)
    }

    /// A builder for a query on this world, with an empty filter.
    pub fn new_query(&self) -> (builder: QueryBuilder<'_, B, F, P>)
        ensures
            builder.world() == *self,
            builder.filter() == Set::<nat>::empty(),
    {
        QueryBuilder::new(self)
    }
}

} // verus!
