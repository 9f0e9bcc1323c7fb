//! What holds of every world, stated over the same functions as the
//! contracts of its operations.

use std::any::TypeId;
use vstd::prelude::*;

use crate::bitfields::BitField;
use crate::components::ComponentCell;
use crate::entities::{Entity, EntityDraft};
use crate::worlds::{EcsErr, World, WorldBuilder};

verus! {

/// The bit position of a registered component type, and the bits of every
/// flag, never change while the world lives: they are the same after any
/// operation as before it.
pub proof fn lemma_positions_are_stable<B: BitField, F: BitField, P: PartialEq>(
    before: World<B, F, P>,
    after: World<B, F, P>,
    id: TypeId,
    flag: F,
    variant: Option<B>,
)
    requires
        before.evolves_to(after),
    ensures
        after.schema().position(id) == before.schema().position(id),
        after.component_bits(id) == before.component_bits(id),
        after.flag_bits(flag, variant) == before.flag_bits(flag, variant),
{
}

/// Registering a component type leaves every type that was registered
/// before at its position; a new type gets the next position.
pub proof fn lemma_registration_keeps_positions<B: BitField, F: BitField, P: PartialEq>(
    before: WorldBuilder<B, F, P>,
    after: WorldBuilder<B, F, P>,
    id: TypeId,
    other: TypeId,
)
    requires
        before.wf(),
        before.registers_component(id, after),
    ensures
        before.schema().position(other).is_some() ==> after.schema().position(other)
            == before.schema().position(other),
        !before.schema().components().contains(id) ==> after.schema().position(id) == Some(
            before.schema().component_count(),
        ),
{
    before.schema().lemma_position(other);
    after.schema().lemma_position(other);
    after.schema().lemma_position(id);
    if before.schema().position(other).is_some() {
        let position = before.schema().position(other).unwrap();
        assert(after.schema().components()[position as int] == other);
    }
    if !before.schema().components().contains(id) {
        assert(after.schema().components()[before.schema().component_count() as int] == id);
    }
}

/// Registering a component type that is registered already changes
/// neither the number of component types nor any position.
pub proof fn lemma_registering_again_changes_nothing<B: BitField, F: BitField, P: PartialEq>(
    before: WorldBuilder<B, F, P>,
    after: WorldBuilder<B, F, P>,
    id: TypeId,
    other: TypeId,
)
    requires
        before.wf(),
        before.schema().components().contains(id),
        before.registers_component(id, after),
    ensures
        after.schema().component_count() == before.schema().component_count(),
        after.schema().position(other) == before.schema().position(other),
        after.schema().flags() == before.schema().flags(),
{
}

/// Registering the same component type twice in a row is the same as
/// registering it once.
pub proof fn lemma_registering_twice_is_once<B: BitField, F: BitField, P: PartialEq>(
    before: WorldBuilder<B, F, P>,
    once: WorldBuilder<B, F, P>,
    twice: WorldBuilder<B, F, P>,
    id: TypeId,
)
    requires
        before.wf(),
        before.registers_component(id, once),
        once.registers_component(id, twice),
    ensures
        twice.schema().components() == once.schema().components(),
        twice.schema().flags() == once.schema().flags(),
        twice.pointers() == once.pointers(),
{
    if !before.schema().components().contains(id) {
        assert(once.schema().components()[before.schema().component_count() as int] == id);
    }
}

/// The mask of an entity that is alive says exactly what the entity
/// carries: it has the bit of a component type if and only if the column
/// of that type holds a cell for the entity, and every other bit of the
/// mask lies in the range of a registered flag.  A column holds cells for
/// entities that are alive only.
pub proof fn lemma_mask_tells_what_is_carried<B: BitField, F: BitField, P: PartialEq>(
    world: World<B, F, P>,
    entity: Entity,
    bit: nat,
)
    requires
        world.wf(),
    ensures
        world.alive(entity) && bit < world.component_count() ==> (world.masks()[entity].contains(bit)
            <==> world.columns()[bit as int].contains_key(entity)),
        world.alive(entity) && world.masks()[entity].contains(bit) && bit >= world.component_count()
            ==> world.schema().covers((bit - world.component_count()) as nat),
        !world.alive(entity) && bit < world.component_count() ==> !world.columns()[bit as int].contains_key(
            entity,
        ),
{
    if bit < world.component_count() {
        assert(world.columns()[bit as int].contains_key(entity) <==> world.alive(entity)
            && world.masks()[entity].contains(bit));
    }
}

/// An entity that is not alive matches no filter, and every question
/// about what it carries is answered with `MissingEntity`.
pub proof fn lemma_missing_entity_is_gone<B: BitField, F: BitField, P: PartialEq>(
    world: World<B, F, P>,
    entity: Entity,
    filter: Set<nat>,
    id: TypeId,
    flag: F,
    variant: Option<B>,
)
    requires
        world.wf(),
        !world.alive(entity),
    ensures
        !world.matching(filter).contains(entity),
        world.has_component(id, entity) == Err::<bool, EcsErr<B, F, P>>(
            EcsErr::MissingEntity(entity),
        ),
        world.has_flag(entity, flag, variant) == Err::<bool, EcsErr<B, F, P>>(
            EcsErr::MissingEntity(entity),
        ),
        world.schema().position(id).is_some() ==> world.cell_of(id, entity) == Err::<
            Option<ComponentCell>,
            EcsErr<B, F, P>,
        >(EcsErr::MissingEntity(entity)),
{
}

/// After an entity was deleted it is not alive, it carries nothing, and
/// every other entity is as it was.
pub proof fn lemma_delete_removes_entity<B: BitField, F: BitField, P: PartialEq>(
    before: World<B, F, P>,
    after: World<B, F, P>,
    entity: Entity,
    other: Entity,
)
    requires
        before.wf(),
        before.alive(entity),
        before.deletes(after, entity, Ok(())),
    ensures
        after.wf(),
        !after.alive(entity),
        forall|c: int| 0 <= c < after.columns().len() ==> !(#[trigger] after.columns()[c]).contains_key(entity),
        other != entity ==> after.alive(other) == before.alive(other),
        other != entity && before.alive(other) ==> after.masks()[other] == before.masks()[other],
{
}

/// No operation on the entities of a world makes an entity alive that
/// was not, and none changes the counter: what was deleted stays deleted.
pub proof fn lemma_operations_revive_nobody<B: BitField, F: BitField, P: PartialEq>(
    before: World<B, F, P>,
    after: World<B, F, P>,
    gone: Entity,
    id: TypeId,
    cell: ComponentCell,
    entity: Entity,
    group: Seq<Entity>,
    flag: F,
    variant: Option<B>,
    set: bool,
    outcome: Result<(), EcsErr<B, F, P>>,
)
    requires
        !before.alive(gone),
        ({
            ||| before.attaches(after, id, cell, entity, outcome)
            ||| before.attaches_group(after, id, group, outcome)
            ||| before.detaches(after, id, entity, outcome)
            ||| before.detaches_group(after, id, group, outcome)
            ||| before.changes_entity_flag(after, entity, flag, variant, set, outcome)
            ||| before.changes_flag(after, group, flag, variant, set, outcome)
            ||| before.deletes(after, entity, outcome)
            ||| before.deletes_group(after, group, outcome)
        }),
    ensures
        !after.alive(gone),
        after.next_id() == before.next_id(),
{
}

/// Building an entity makes that entity alive and no other: an entity
/// whose counter value was given out earlier, and that is not alive, stays
/// so.
pub proof fn lemma_build_revives_nobody<B: BitField, F: BitField, P: PartialEq>(
    before: World<B, F, P>,
    after: World<B, F, P>,
    draft: EntityDraft<B>,
    gone: Entity,
)
    requires
        draft.wf(before),
        before.commits(after, draft.entity(), draft.bits(), draft.cells()),
        !before.alive(gone),
        gone.0 + 1 < before.next_id(),
    ensures
        after.alive(draft.entity()),
        after.masks()[draft.entity()] == draft.bits(),
        !after.alive(gone),
{
}

/// After a cell was attached to an entity, reading gives that cell back
/// and the entity is reported to carry the component.
pub proof fn lemma_attach_then_read<B: BitField, F: BitField, P: PartialEq>(
    before: World<B, F, P>,
    after: World<B, F, P>,
    id: TypeId,
    cell: ComponentCell,
    entity: Entity,
)
    requires
        before.wf(),
        before.attaches(after, id, cell, entity, Ok(())),
    ensures
        after.cell_of(id, entity) == Ok::<Option<ComponentCell>, EcsErr<B, F, P>>(Some(cell)),
        after.has_component(id, entity) == Ok::<bool, EcsErr<B, F, P>>(true),
{
    before.schema().lemma_position(id);
    let position = before.schema().position(id).unwrap();
    assert(after.masks()[entity].contains(position));
    assert(set![position].subset_of(after.masks()[entity]));
}

/// After a component was detached from an entity, the entity is reported
/// not to carry it and reading finds no cell.
pub proof fn lemma_detach_then_has<B: BitField, F: BitField, P: PartialEq>(
    before: World<B, F, P>,
    after: World<B, F, P>,
    id: TypeId,
    entity: Entity,
)
    requires
        before.wf(),
        before.detaches(after, id, entity, Ok(())),
    ensures
        after.cell_of(id, entity) == Ok::<Option<ComponentCell>, EcsErr<B, F, P>>(None),
        after.has_component(id, entity) == Ok::<bool, EcsErr<B, F, P>>(false),
{
    before.schema().lemma_position(id);
    let position = before.schema().position(id).unwrap();
    assert(!after.masks()[entity].contains(position));
    assert(set![position].contains(position));
}

/// After the bits of a flag, or of one of its variants, were set on an
/// entity, the entity is reported to have them; after they were cleared,
/// it has them only if there are none.
pub proof fn lemma_flag_then_has<B: BitField, F: BitField, P: PartialEq>(
    before: World<B, F, P>,
    after: World<B, F, P>,
    entity: Entity,
    flag: F,
    variant: Option<B>,
    set: bool,
)
    requires
        before.wf(),
        before.changes_entity_flag(after, entity, flag, variant, set, Ok(())),
    ensures
        set ==> after.has_flag(entity, flag, variant) == Ok::<bool, EcsErr<B, F, P>>(true),
        !set ==> after.has_flag(entity, flag, variant) == Ok::<bool, EcsErr<B, F, P>>(
            before.flag_bits(flag, variant).unwrap() == Set::<nat>::empty(),
        ),
{
    let bits = before.flag_bits(flag, variant).unwrap();
    if !set {
        if bits.subset_of(after.masks()[entity]) {
            assert forall|bit: nat| !bits.contains(bit) by {
                if bits.contains(bit) {
                    assert(after.masks()[entity].contains(bit));
                }
            }
            assert(bits =~= Set::<nat>::empty());
        }
    }
}

/// A schema fits the mask type exactly when the number of bits that it
/// needs is at most the width of the type; a world exists for no other
/// schema.
pub proof fn lemma_world_fits<B: BitField, F: BitField, P: PartialEq>(world: World<B, F, P>)
    requires
        world.wf(),
    ensures
        world.schema().total_bits() <= B::bit_width(),
        world.component_count() <= B::bit_width(),
        forall|flag: F| #[trigger]
            world.schema().flags().contains_key(flag) ==> world.component_count()
                + world.schema().flags()[flag].end <= B::bit_width(),
{
    world.schema().lemma_flag_end();
}

} // verus!
