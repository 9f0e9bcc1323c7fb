use std::any::TypeId;
use std::cell::RefCell;
use std::rc::Rc;

use ecs_world::components::{Component, ComponentCell};
use ecs_world::entities::Entity;
use ecs_world::worlds::{EcsErr, World};

#[derive(Clone, Debug, PartialEq)]
struct Position(i32, i32);

impl Component for Position {}

#[derive(Clone, Debug, PartialEq)]
struct Velocity(i32, i32);

impl Component for Velocity {}

#[derive(Clone, Debug, PartialEq)]
struct Name(String);

impl Component for Name {}

#[derive(Clone)]
struct C1;

impl Component for C1 {}

#[derive(Clone)]
struct C2;

impl Component for C2 {}

#[derive(Clone)]
struct C3;

impl Component for C3 {}

#[derive(Clone)]
struct C4;

impl Component for C4 {}

#[derive(Clone)]
struct C5;

impl Component for C5 {}

#[derive(Clone)]
struct C6;

impl Component for C6 {}

const TEAM: u8 = 1;
const MOOD: u8 = 2;
const UNKNOWN: u8 = 99;

type Small = World<u8, u8, u32>;

fn small_world() -> Small {
    match Small::builder()
        .with_component::<Position>()
        .with_component::<Velocity>()
        .with_flag(TEAM, 0..2)
        .build()
    {
        Ok(world) => world,
        Err(error) => panic!("the schema fits: {:?}", error),
    }
}

fn entity_with_position(world: &mut Small, x: i32, y: i32) -> Entity {
    match world.new_entity().with_component(Position(x, y)) {
        Ok(builder) => builder.build(),
        Err(error) => panic!("Position is registered: {:?}", error),
    }
}

fn sorted(mut entities: Vec<Entity>) -> Vec<usize> {
    entities.sort_by_key(|entity| entity.0);
    entities.iter().map(|entity| entity.0).collect()
}

#[test]
fn two_components_and_a_two_bit_flag_fit_in_eight_bits() {
    let world = Small::builder()
        .with_component::<Position>()
        .with_component::<Velocity>()
        .with_flag(TEAM, 0..2)
        .build();
    assert!(world.is_ok());
}

#[test]
fn nine_components_do_not_fit_in_eight_bits() {
    let world = Small::builder()
        .with_component::<Position>()
        .with_component::<Velocity>()
        .with_component::<Name>()
        .with_component::<C1>()
        .with_component::<C2>()
        .with_component::<C3>()
        .with_component::<C4>()
        .with_component::<C5>()
        .with_component::<C6>()
        .build();
    assert!(matches!(world, Err(EcsErr::BitFieldRangeTooSmall(9, 8))));
}

#[test]
fn exactly_eight_bits_fit_in_eight_bits() {
    let components_only = Small::builder()
        .with_component::<Position>()
        .with_component::<Velocity>()
        .with_component::<Name>()
        .with_component::<C1>()
        .with_component::<C2>()
        .with_component::<C3>()
        .with_component::<C4>()
        .with_component::<C5>()
        .build();
    assert!(components_only.is_ok());
    let with_flag = Small::builder()
        .with_component::<Position>()
        .with_component::<Velocity>()
        .with_flag(TEAM, 3..6)
        .build();
    assert!(with_flag.is_ok());
    let one_more = Small::builder()
        .with_component::<Position>()
        .with_component::<Velocity>()
        .with_component::<Name>()
        .with_flag(TEAM, 3..6)
        .build();
    assert!(matches!(one_more, Err(EcsErr::BitFieldRangeTooSmall(9, 8))));
}

#[test]
fn the_largest_flag_end_counts_not_the_sum_of_widths() {
    let world = Small::builder()
        .with_component::<Position>()
        .with_flag(TEAM, 0..7)
        .with_flag(MOOD, 0..7)
        .build();
    assert!(world.is_ok());
    let too_far = World::<u8, u8, u32>::builder()
        .with_component::<Position>()
        .with_flag(TEAM, 0..2)
        .with_flag(MOOD, 6..8)
        .build();
    assert!(matches!(too_far, Err(EcsErr::BitFieldRangeTooSmall(9, 8))));
}

#[test]
fn a_wider_mask_takes_what_a_narrow_one_refuses() {
    let world = World::<u16, u8, u32>::builder()
        .with_component::<Position>()
        .with_flag(TEAM, 0..8)
        .build();
    assert!(world.is_ok());
    let world = World::<u64, u8, u32>::builder()
        .with_component::<Position>()
        .with_flag(TEAM, 0..63)
        .build();
    assert!(world.is_ok());
    let world = World::<u64, u8, u32>::builder()
        .with_component::<Position>()
        .with_flag(TEAM, 0..64)
        .build();
    assert!(matches!(world, Err(EcsErr::BitFieldRangeTooSmall(65, 64))));
}

#[test]
fn component_masks_follow_the_order_of_registration() {
    let world = small_world();
    assert!(matches!(world.component_bit_mask::<Position>(), Ok(1)));
    assert!(matches!(world.component_bit_mask::<Velocity>(), Ok(2)));
    assert!(matches!(
        world.component_bit_mask::<Name>(),
        Err(EcsErr::MissingComponent(id)) if id == TypeId::of::<Name>()
    ));
    assert!(matches!(world.component_bit_mask_of(&TypeId::of::<Velocity>()), Ok(2)));
}

#[test]
fn registering_a_component_again_keeps_count_and_positions() {
    let world = match Small::builder()
        .with_component::<Position>()
        .with_component::<Velocity>()
        .with_component::<Position>()
        .with_component::<Name>()
        .build()
    {
        Ok(world) => world,
        Err(error) => panic!("the schema fits: {:?}", error),
    };
    assert!(matches!(world.component_bit_mask::<Position>(), Ok(1)));
    assert!(matches!(world.component_bit_mask::<Velocity>(), Ok(2)));
    assert!(matches!(world.component_bit_mask::<Name>(), Ok(4)));
}

#[test]
fn flag_masks_lie_after_the_component_bits() {
    let world = small_world();
    assert!(matches!(world.flag_bit_mask(TEAM, None), Ok(0b1100)));
    assert!(matches!(world.flag_bit_mask(TEAM, Some(1)), Ok(0b0100)));
    assert!(matches!(world.flag_bit_mask(TEAM, Some(2)), Ok(0b1000)));
    assert!(matches!(world.flag_bit_mask(TEAM, Some(3)), Ok(0b1100)));
    assert!(matches!(world.flag_bit_mask(TEAM, Some(0)), Ok(0)));
    assert!(matches!(world.flag_bit_mask(UNKNOWN, None), Err(EcsErr::MissingFlag(UNKNOWN))));
    assert!(matches!(world.flag_bit_mask(UNKNOWN, Some(1)), Err(EcsErr::MissingFlag(UNKNOWN))));
}

#[test]
fn a_variant_is_cut_off_at_the_end_of_the_range() {
    let world = small_world();
    assert!(matches!(world.flag_bit_mask(TEAM, Some(0b111)), Ok(0b1100)));
    assert!(matches!(world.flag_bit_mask(TEAM, Some(0b100)), Ok(0)));
}

#[test]
fn a_range_that_starts_later_packs_the_variant_from_its_start() {
    let world = match Small::builder()
        .with_component::<Position>()
        .with_flag(TEAM, 0..2)
        .with_flag(MOOD, 2..5)
        .build()
    {
        Ok(world) => world,
        Err(error) => panic!("the schema fits: {:?}", error),
    };
    assert!(matches!(world.flag_bit_mask(MOOD, None), Ok(0b111000)));
    assert!(matches!(world.flag_bit_mask(MOOD, Some(0b101)), Ok(0b101000)));
    assert!(matches!(world.flag_bit_mask(TEAM, Some(0b10)), Ok(0b100)));
}

#[test]
fn the_last_range_registered_for_a_flag_wins() {
    let world = match Small::builder()
        .with_component::<Position>()
        .with_flag(TEAM, 0..2)
        .with_flag(TEAM, 1..4)
        .build()
    {
        Ok(world) => world,
        Err(error) => panic!("the schema fits: {:?}", error),
    };
    assert!(matches!(world.flag_bit_mask(TEAM, None), Ok(0b11100)));
}

#[test]
fn an_entity_with_only_one_component_has_it_and_not_the_other() {
    let mut world = small_world();
    let entity = entity_with_position(&mut world, 1, 2);
    assert!(matches!(world.entity_has_component::<Position>(entity), Ok(true)));
    assert!(matches!(world.entity_has_component::<Velocity>(entity), Ok(false)));
}

#[test]
fn entities_get_counter_values_in_order() {
    let mut world = small_world();
    let first = entity_with_position(&mut world, 0, 0);
    let second = world.new_entity().build();
    let third = entity_with_position(&mut world, 0, 0);
    assert_eq!(first, Entity(0));
    assert_eq!(second, Entity(1));
    assert_eq!(third, Entity(2));
}

#[test]
fn a_deleted_counter_value_is_not_used_again() {
    let mut world = small_world();
    let first = entity_with_position(&mut world, 0, 0);
    assert!(world.delete_entity(first).is_ok());
    let second = entity_with_position(&mut world, 0, 0);
    assert_eq!(second, Entity(1));
    assert!(matches!(
        world.entity_has_component::<Position>(first),
        Err(EcsErr::MissingEntity(entity)) if entity == first
    ));
}

#[test]
fn a_query_on_a_component_finds_who_carries_it() {
    let mut world = small_world();
    let entity = entity_with_position(&mut world, 1, 2);
    let on_position = match world.new_query().with_component::<Position>() {
        Ok(builder) => builder.build(),
        Err(error) => panic!("Position is registered: {:?}", error),
    };
    assert_eq!(on_position.get_entities(), vec![entity]);
    let on_velocity = match world.new_query().with_component::<Velocity>() {
        Ok(builder) => builder.build(),
        Err(error) => panic!("Velocity is registered: {:?}", error),
    };
    assert_eq!(on_velocity.get_entities(), Vec::<Entity>::new());
}

#[test]
fn an_empty_filter_matches_every_entity() {
    let mut world = small_world();
    let first = entity_with_position(&mut world, 1, 2);
    let second = world.new_entity().build();
    let query = world.new_query().build();
    assert_eq!(sorted(query.get_entities()), vec![first.0, second.0]);
    assert_eq!(sorted(world.get_entities(0)), vec![first.0, second.0]);
}

#[test]
fn a_scan_returns_exactly_the_supersets_of_the_filter() {
    let mut world = small_world();
    let both = match world.new_entity().with_component(Position(0, 0)) {
        Ok(builder) => match builder.with_component(Velocity(1, 1)) {
            Ok(builder) => builder.build(),
            Err(error) => panic!("{:?}", error),
        },
        Err(error) => panic!("{:?}", error),
    };
    let only_position = entity_with_position(&mut world, 0, 0);
    let flagged = match world.new_entity().with_flag(TEAM, Some(1)) {
        Ok(builder) => builder.build(),
        Err(error) => panic!("{:?}", error),
    };
    let bare = world.new_entity().build();
    assert_eq!(sorted(world.get_entities(0b0001)), vec![both.0, only_position.0]);
    assert_eq!(sorted(world.get_entities(0b0010)), vec![both.0]);
    assert_eq!(sorted(world.get_entities(0b0011)), vec![both.0]);
    assert_eq!(sorted(world.get_entities(0b0100)), vec![flagged.0]);
    assert_eq!(sorted(world.get_entities(0b0101)), Vec::<usize>::new());
    assert_eq!(sorted(world.get_entities(0b1000_0000)), Vec::<usize>::new());
    assert_eq!(
        sorted(world.get_entities(0)),
        vec![both.0, only_position.0, flagged.0, bare.0]
    );
}

#[test]
fn a_query_combines_components_and_flags() {
    let mut world = small_world();
    let red = match world.new_entity().with_component(Position(0, 0)) {
        Ok(builder) => match builder.with_flag(TEAM, Some(1)) {
            Ok(builder) => builder.build(),
            Err(error) => panic!("{:?}", error),
        },
        Err(error) => panic!("{:?}", error),
    };
    let blue = match world.new_entity().with_component(Position(0, 0)) {
        Ok(builder) => match builder.with_flag(TEAM, Some(2)) {
            Ok(builder) => builder.build(),
            Err(error) => panic!("{:?}", error),
        },
        Err(error) => panic!("{:?}", error),
    };
    let _plain = entity_with_position(&mut world, 0, 0);
    let reds = match world.new_query().with_component::<Position>() {
        Ok(builder) => match builder.with_flag(TEAM, Some(1)) {
            Ok(builder) => builder.build(),
            Err(error) => panic!("{:?}", error),
        },
        Err(error) => panic!("{:?}", error),
    };
    assert_eq!(reds.get_entities(), vec![red]);
    let blues = match world.new_query().with_flag(TEAM, Some(2)) {
        Ok(builder) => builder.build(),
        Err(error) => panic!("{:?}", error),
    };
    assert_eq!(blues.get_entities(), vec![blue]);
    let any_team = match world.new_query().with_flag(TEAM, None) {
        Ok(builder) => builder.build(),
        Err(error) => panic!("{:?}", error),
    };
    assert_eq!(any_team.get_entities(), Vec::<Entity>::new());
}

#[test]
fn a_query_builder_refuses_what_is_not_registered() {
    let world = small_world();
    assert!(matches!(
        world.new_query().with_component::<Name>(),
        Err(EcsErr::MissingComponent(id)) if id == TypeId::of::<Name>()
    ));
    assert!(matches!(
        world.new_query().with_component_of(&TypeId::of::<Name>()),
        Err(EcsErr::MissingComponent(id)) if id == TypeId::of::<Name>()
    ));
    assert!(matches!(
        world.new_query().with_flag(UNKNOWN, None),
        Err(EcsErr::MissingFlag(UNKNOWN))
    ));
}

#[test]
fn a_query_is_a_snapshot() {
    let mut world = small_world();
    let first = entity_with_position(&mut world, 1, 1);
    let found = match world.new_query().with_component::<Position>() {
        Ok(builder) => builder.build().get_entities(),
        Err(error) => panic!("{:?}", error),
    };
    let _second = entity_with_position(&mut world, 2, 2);
    assert_eq!(found, vec![first]);
}

#[test]
fn fetching_from_a_query_is_all_or_nothing() {
    let mut world = small_world();
    let first = entity_with_position(&mut world, 1, 1);
    let second = match world.new_entity().with_component(Position(2, 2)) {
        Ok(builder) => match builder.with_component(Velocity(5, 5)) {
            Ok(builder) => builder.build(),
            Err(error) => panic!("{:?}", error),
        },
        Err(error) => panic!("{:?}", error),
    };
    let query = match world.new_query().with_component::<Position>() {
        Ok(builder) => builder.build(),
        Err(error) => panic!("{:?}", error),
    };
    assert_eq!(sorted(query.get_entities()), vec![first.0, second.0]);
    let positions = match query.get_components::<Position>() {
        Ok(positions) => positions,
        Err(error) => panic!("{:?}", error),
    };
    assert_eq!(positions.len(), 2);
    let mut values: Vec<i32> = positions.iter().map(|cell| cell.borrow().0).collect();
    values.sort();
    assert_eq!(values, vec![1, 2]);
    assert!(matches!(
        query.get_components::<Velocity>(),
        Err(EcsErr::MissingComponentToEntity(id, entity))
            if id == TypeId::of::<Velocity>() && entity == first
    ));
}

#[test]
fn setting_a_variant_is_seen_by_the_same_variant_only() {
    let mut world = small_world();
    let entity = entity_with_position(&mut world, 1, 2);
    assert!(world.set_entity_flag(entity, TEAM, Some(2)).is_ok());
    assert!(matches!(world.entity_has_flag(entity, TEAM, Some(2)), Ok(true)));
    assert!(matches!(world.entity_has_flag(entity, TEAM, Some(1)), Ok(false)));
    assert!(matches!(world.entity_has_flag(entity, TEAM, None), Ok(false)));
    assert!(matches!(world.entity_has_component::<Position>(entity), Ok(true)));
}

#[test]
fn setting_a_flag_without_variant_sets_its_whole_range() {
    let mut world = small_world();
    let entity = world.new_entity().build();
    assert!(world.set_entity_flag(entity, TEAM, None).is_ok());
    assert!(matches!(world.entity_has_flag(entity, TEAM, None), Ok(true)));
    assert!(matches!(world.entity_has_flag(entity, TEAM, Some(1)), Ok(true)));
    assert!(matches!(world.entity_has_flag(entity, TEAM, Some(2)), Ok(true)));
    assert_eq!(world.get_entities(0b1100), vec![entity]);
}

#[test]
fn removing_a_flag_clears_its_bits() {
    let mut world = small_world();
    let entity = entity_with_position(&mut world, 1, 2);
    assert!(world.set_entity_flag(entity, TEAM, None).is_ok());
    assert!(world.remove_entity_flag(entity, TEAM, Some(1)).is_ok());
    assert!(matches!(world.entity_has_flag(entity, TEAM, Some(1)), Ok(false)));
    assert!(matches!(world.entity_has_flag(entity, TEAM, Some(2)), Ok(true)));
    assert!(world.remove_entity_flag(entity, TEAM, None).is_ok());
    assert!(matches!(world.entity_has_flag(entity, TEAM, Some(2)), Ok(false)));
    assert!(matches!(world.entity_has_component::<Position>(entity), Ok(true)));
    assert_eq!(world.get_entities(0b0001), vec![entity]);
}

#[test]
fn flag_operations_name_what_is_missing() {
    let mut world = small_world();
    let entity = world.new_entity().build();
    let nobody = Entity(77);
    assert!(matches!(
        world.set_entity_flag(entity, UNKNOWN, None),
        Err(EcsErr::MissingFlag(UNKNOWN))
    ));
    assert!(matches!(
        world.set_entity_flag(nobody, UNKNOWN, None),
        Err(EcsErr::MissingFlag(UNKNOWN))
    ));
    assert!(matches!(
        world.set_entity_flag(nobody, TEAM, None),
        Err(EcsErr::MissingEntity(entity)) if entity == nobody
    ));
    assert!(matches!(
        world.remove_entity_flag(nobody, TEAM, None),
        Err(EcsErr::MissingEntity(entity)) if entity == nobody
    ));
    assert!(matches!(
        world.remove_entity_flag(entity, UNKNOWN, Some(1)),
        Err(EcsErr::MissingFlag(UNKNOWN))
    ));
    assert!(matches!(
        world.entity_has_flag(nobody, UNKNOWN, None),
        Err(EcsErr::MissingEntity(entity)) if entity == nobody
    ));
    assert!(matches!(
        world.entity_has_flag(entity, UNKNOWN, None),
        Err(EcsErr::MissingFlag(UNKNOWN))
    ));
}

#[test]
fn group_flag_operations_stop_at_the_first_missing_entity() {
    let mut world = small_world();
    let first = world.new_entity().build();
    let second = world.new_entity().build();
    let nobody = Entity(50);
    let outcome = world.set_entity_group_flag(&[first, nobody, second], TEAM, Some(1));
    assert!(matches!(outcome, Err(EcsErr::MissingEntity(entity)) if entity == nobody));
    assert!(matches!(world.entity_has_flag(first, TEAM, Some(1)), Ok(true)));
    assert!(matches!(world.entity_has_flag(second, TEAM, Some(1)), Ok(false)));
    assert!(world.set_entity_group_flag(&[first, second, first], TEAM, Some(2)).is_ok());
    assert!(matches!(
        world.entity_group_has_flag(&[first, second], TEAM, Some(2)),
        Ok(has) if has == vec![true, true]
    ));
    assert!(matches!(
        world.entity_group_has_flag(&[second, first], TEAM, Some(1)),
        Ok(has) if has == vec![false, true]
    ));
    let outcome = world.remove_entity_group_flag(&[second, nobody, first], TEAM, None);
    assert!(matches!(outcome, Err(EcsErr::MissingEntity(entity)) if entity == nobody));
    assert!(matches!(world.entity_has_flag(second, TEAM, Some(2)), Ok(false)));
    assert!(matches!(world.entity_has_flag(first, TEAM, None), Ok(true)));
    assert!(world.remove_entity_group_flag(&[first], TEAM, None).is_ok());
    assert!(matches!(world.entity_has_flag(first, TEAM, Some(1)), Ok(false)));
    assert!(matches!(
        world.set_entity_group_flag(&[first], UNKNOWN, None),
        Err(EcsErr::MissingFlag(UNKNOWN))
    ));
    assert!(matches!(
        world.entity_group_has_flag(&[first, nobody], TEAM, None),
        Err(EcsErr::MissingEntity(entity)) if entity == nobody
    ));
    assert!(matches!(
        world.entity_group_has_flag(&[nobody], UNKNOWN, None),
        Err(EcsErr::MissingFlag(UNKNOWN))
    ));
    assert!(matches!(world.entity_group_has_flag(&[], TEAM, None), Ok(has) if has.is_empty()));
}

#[test]
fn attach_then_read_gives_the_payload_back() {
    let mut world = small_world();
    let entity = world.new_entity().build();
    assert!(matches!(world.entity_has_component::<Position>(entity), Ok(false)));
    assert!(world.add_component_to_entity(Position(3, 4), entity).is_ok());
    assert!(matches!(world.entity_has_component::<Position>(entity), Ok(true)));
    match world.get_entity_component::<Position>(entity) {
        Ok(Some(cell)) => assert_eq!(*cell.borrow(), Position(3, 4)),
        other => panic!("expected a position: {:?}", other.map(|found| found.is_some())),
    }
    assert!(matches!(world.get_entity_component::<Velocity>(entity), Ok(None)));
    assert_eq!(world.get_entities(0b01), vec![entity]);
}

#[test]
fn attaching_again_replaces_the_cell() {
    let mut world = small_world();
    let entity = entity_with_position(&mut world, 1, 1);
    assert!(world.add_component_to_entity(Position(9, 9), entity).is_ok());
    match world.get_entity_component::<Position>(entity) {
        Ok(Some(cell)) => assert_eq!(*cell.borrow(), Position(9, 9)),
        _ => panic!("expected a position"),
    }
    assert_eq!(world.get_entities(0b01), vec![entity]);
}

#[test]
fn a_handle_changes_the_payload_for_every_holder() {
    let mut world = small_world();
    let entity = entity_with_position(&mut world, 1, 1);
    match world.get_entity_component::<Position>(entity) {
        Ok(Some(cell)) => cell.borrow_mut().0 = 40,
        _ => panic!("expected a position"),
    }
    match world.get_entity_component::<Position>(entity) {
        Ok(Some(cell)) => assert_eq!(*cell.borrow(), Position(40, 1)),
        _ => panic!("expected a position"),
    }
}

#[test]
fn a_shared_component_is_one_payload_for_all() {
    let mut world = small_world();
    let first = world.new_entity().build();
    let second = world.new_entity().build();
    let shared = Rc::new(RefCell::new(Velocity(1, 1)));
    assert!(world.add_shared_component_to_entity(&shared, first).is_ok());
    assert!(world.add_shared_component_to_entity(&shared, second).is_ok());
    shared.borrow_mut().1 = 7;
    let of_first = match world.get_entity_component::<Velocity>(first) {
        Ok(Some(cell)) => cell,
        _ => panic!("expected a velocity"),
    };
    let of_second = match world.get_entity_component::<Velocity>(second) {
        Ok(Some(cell)) => cell,
        _ => panic!("expected a velocity"),
    };
    assert!(Rc::ptr_eq(&of_first, &shared));
    assert!(Rc::ptr_eq(&of_second, &shared));
    assert_eq!(*of_first.borrow(), Velocity(1, 7));
}

#[test]
fn a_group_gets_a_payload_each_or_one_for_all() {
    let mut world = small_world();
    let first = world.new_entity().build();
    let second = world.new_entity().build();
    assert!(world.add_component_to_entity_group(Position(5, 5), &[first, second]).is_ok());
    let cells = match world.get_entity_group_component::<Position>(&[first, second]) {
        Ok(cells) => cells,
        Err(error) => panic!("{:?}", error),
    };
    assert_eq!(cells.len(), 2);
    assert!(!Rc::ptr_eq(&cells[0], &cells[1]));
    cells[0].borrow_mut().0 = 6;
    assert_eq!(*cells[0].borrow(), Position(6, 5));
    assert_eq!(*cells[1].borrow(), Position(5, 5));

    let shared = Rc::new(RefCell::new(Velocity(2, 2)));
    assert!(world.add_shared_component_to_entity_group(&shared, &[second, first]).is_ok());
    let cells = match world.get_entity_group_component::<Velocity>(&[first, second]) {
        Ok(cells) => cells,
        Err(error) => panic!("{:?}", error),
    };
    assert!(Rc::ptr_eq(&cells[0], &cells[1]));
    assert!(Rc::ptr_eq(&cells[0], &shared));
    assert!(matches!(
        world.entity_group_has_component::<Velocity>(&[first, second]),
        Ok(has) if has == vec![true, true]
    ));
}

#[test]
fn group_attach_stops_at_the_first_missing_entity() {
    let mut world = small_world();
    let first = world.new_entity().build();
    let second = world.new_entity().build();
    let nobody = Entity(31);
    let outcome = world.add_component_to_entity_group(Position(0, 0), &[first, nobody, second]);
    assert!(matches!(outcome, Err(EcsErr::MissingEntity(entity)) if entity == nobody));
    assert!(matches!(
        world.entity_group_has_component::<Position>(&[first, second]),
        Ok(has) if has == vec![true, false]
    ));
    let shared = Rc::new(RefCell::new(Velocity(0, 0)));
    let outcome = world.add_shared_component_to_entity_group(&shared, &[nobody, first]);
    assert!(matches!(outcome, Err(EcsErr::MissingEntity(entity)) if entity == nobody));
    assert!(matches!(world.entity_has_component::<Velocity>(first), Ok(false)));
    assert_eq!(Rc::strong_count(&shared), 1);
    assert!(matches!(
        world.add_component_to_entity_group(Name(String::from("n")), &[first]),
        Err(EcsErr::MissingComponent(id)) if id == TypeId::of::<Name>()
    ));
    assert!(matches!(
        world.add_shared_component_to_entity_group(&Rc::new(RefCell::new(C1)), &[first]),
        Err(EcsErr::MissingComponent(id)) if id == TypeId::of::<C1>()
    ));
    assert!(world.add_component_to_entity_group(Position(0, 0), &[]).is_ok());
}

#[test]
fn attach_names_what_is_missing() {
    let mut world = small_world();
    let entity = world.new_entity().build();
    let nobody = Entity(8);
    assert!(matches!(
        world.add_component_to_entity(Position(0, 0), nobody),
        Err(EcsErr::MissingEntity(entity)) if entity == nobody
    ));
    assert!(matches!(
        world.add_component_to_entity(Name(String::new()), nobody),
        Err(EcsErr::MissingEntity(entity)) if entity == nobody
    ));
    assert!(matches!(
        world.add_component_to_entity(Name(String::new()), entity),
        Err(EcsErr::MissingComponent(id)) if id == TypeId::of::<Name>()
    ));
    assert!(matches!(
        world.add_shared_component_to_entity(&Rc::new(RefCell::new(Name(String::new()))), entity),
        Err(EcsErr::MissingComponent(id)) if id == TypeId::of::<Name>()
    ));
    assert!(matches!(
        world.entity_has_component::<Name>(entity),
        Err(EcsErr::MissingComponent(id)) if id == TypeId::of::<Name>()
    ));
    assert!(matches!(
        world.entity_has_component::<Name>(nobody),
        Err(EcsErr::MissingEntity(entity)) if entity == nobody
    ));
    assert!(matches!(
        world.entity_group_has_component::<Name>(&[nobody]),
        Err(EcsErr::MissingComponent(id)) if id == TypeId::of::<Name>()
    ));
    assert!(matches!(
        world.entity_group_has_component::<Position>(&[entity, nobody]),
        Err(EcsErr::MissingEntity(entity)) if entity == nobody
    ));
}

#[test]
fn reads_tell_absent_from_missing() {
    let mut world = small_world();
    let with = entity_with_position(&mut world, 1, 1);
    let without = world.new_entity().build();
    let nobody = Entity(12);
    assert!(matches!(world.get_entity_component::<Position>(without), Ok(None)));
    assert!(matches!(
        world.get_entity_component::<Position>(nobody),
        Err(EcsErr::MissingEntity(entity)) if entity == nobody
    ));
    assert!(matches!(
        world.get_entity_component::<Name>(with),
        Err(EcsErr::MissingComponent(id)) if id == TypeId::of::<Name>()
    ));
    match world.get_some_entity_group_component::<Position>(&[with, without, with]) {
        Ok(found) => {
            assert_eq!(found.len(), 3);
            assert!(found[0].is_some());
            assert!(found[1].is_none());
            assert!(found[2].is_some());
        },
        Err(error) => panic!("{:?}", error),
    }
    assert!(matches!(
        world.get_some_entity_group_component::<Position>(&[with, nobody]),
        Err(EcsErr::MissingEntity(entity)) if entity == nobody
    ));
    assert!(matches!(
        world.get_some_entity_group_component::<Name>(&[with]),
        Err(EcsErr::MissingComponent(id)) if id == TypeId::of::<Name>()
    ));
    assert!(matches!(
        world.get_entity_group_component::<Position>(&[with, without]),
        Err(EcsErr::MissingComponentToEntity(id, entity))
            if id == TypeId::of::<Position>() && entity == without
    ));
    assert!(matches!(
        world.get_entity_group_component::<Position>(&[nobody, without]),
        Err(EcsErr::MissingEntity(entity)) if entity == nobody
    ));
    assert!(matches!(
        world.get_entity_group_component::<Name>(&[with]),
        Err(EcsErr::MissingComponent(id)) if id == TypeId::of::<Name>()
    ));
    assert!(matches!(world.get_entity_group_component::<Position>(&[]), Ok(found) if found.is_empty()));
}

#[test]
fn detach_then_has_reports_false() {
    let mut world = small_world();
    let entity = entity_with_position(&mut world, 1, 2);
    assert!(world.delete_entity_component::<Position>(entity).is_ok());
    assert!(matches!(world.entity_has_component::<Position>(entity), Ok(false)));
    assert!(matches!(world.get_entity_component::<Position>(entity), Ok(None)));
    assert_eq!(world.get_entities(0b01), Vec::<Entity>::new());
    assert_eq!(world.get_entities(0), vec![entity]);
}

#[test]
fn detach_asks_for_a_component_that_is_carried() {
    let mut world = small_world();
    let entity = entity_with_position(&mut world, 1, 2);
    let nobody = Entity(64);
    assert!(matches!(
        world.delete_entity_component::<Velocity>(entity),
        Err(EcsErr::MissingComponentToEntity(id, found))
            if id == TypeId::of::<Velocity>() && found == entity
    ));
    assert!(matches!(
        world.delete_entity_component::<Name>(entity),
        Err(EcsErr::MissingComponent(id)) if id == TypeId::of::<Name>()
    ));
    assert!(matches!(
        world.delete_entity_component::<Position>(nobody),
        Err(EcsErr::MissingEntity(entity)) if entity == nobody
    ));
    assert!(matches!(world.entity_has_component::<Position>(entity), Ok(true)));
}

#[test]
fn group_detach_stops_at_the_first_that_carries_none() {
    let mut world = small_world();
    let first = entity_with_position(&mut world, 1, 1);
    let second = entity_with_position(&mut world, 2, 2);
    let third = world.new_entity().build();
    let fourth = entity_with_position(&mut world, 4, 4);
    let outcome = world.delete_entity_group_component::<Position>(&[first, second, third, fourth]);
    assert!(matches!(
        outcome,
        Err(EcsErr::MissingComponentToEntity(id, entity))
            if id == TypeId::of::<Position>() && entity == third
    ));
    assert!(matches!(
        world.entity_group_has_component::<Position>(&[first, second, third, fourth]),
        Ok(has) if has == vec![false, false, false, true]
    ));
    let outcome = world.delete_entity_group_component::<Position>(&[fourth, fourth]);
    assert!(matches!(
        outcome,
        Err(EcsErr::MissingComponentToEntity(id, entity))
            if id == TypeId::of::<Position>() && entity == fourth
    ));
    assert!(matches!(world.entity_has_component::<Position>(fourth), Ok(false)));
    let nobody = Entity(90);
    assert!(matches!(
        world.delete_entity_group_component::<Position>(&[nobody]),
        Err(EcsErr::MissingEntity(entity)) if entity == nobody
    ));
    assert!(matches!(
        world.delete_entity_group_component::<Name>(&[first]),
        Err(EcsErr::MissingComponent(id)) if id == TypeId::of::<Name>()
    ));
    assert!(world.delete_entity_group_component::<Position>(&[]).is_ok());
}

#[test]
fn detach_then_delete_leaves_nothing_behind() {
    let mut world = small_world();
    let entity = entity_with_position(&mut world, 1, 2);
    assert!(world.delete_entity_component::<Position>(entity).is_ok());
    assert!(world.delete_entity(entity).is_ok());
    assert_eq!(world.get_entities(0), Vec::<Entity>::new());
    assert_eq!(world.get_entities(0b01), Vec::<Entity>::new());
    assert!(matches!(
        world.entity_has_component::<Position>(entity),
        Err(EcsErr::MissingEntity(found)) if found == entity
    ));
    assert!(matches!(
        world.get_entity_component::<Position>(entity),
        Err(EcsErr::MissingEntity(found)) if found == entity
    ));
    assert!(matches!(
        world.entity_has_flag(entity, TEAM, None),
        Err(EcsErr::MissingEntity(found)) if found == entity
    ));
    assert!(matches!(
        world.set_entity_flag(entity, TEAM, None),
        Err(EcsErr::MissingEntity(found)) if found == entity
    ));
    assert!(matches!(
        world.add_component_to_entity(Position(0, 0), entity),
        Err(EcsErr::MissingEntity(found)) if found == entity
    ));
    assert!(matches!(
        world.delete_entity_component::<Position>(entity),
        Err(EcsErr::MissingEntity(found)) if found == entity
    ));
    assert!(matches!(
        world.delete_entity(entity),
        Err(EcsErr::MissingEntity(found)) if found == entity
    ));
}

#[test]
fn deleting_an_entity_that_lacks_a_component_succeeds() {
    let mut world = small_world();
    let partial = entity_with_position(&mut world, 1, 2);
    let other = match world.new_entity().with_component(Velocity(1, 1)) {
        Ok(builder) => builder.build(),
        Err(error) => panic!("{:?}", error),
    };
    assert!(world.delete_entity(partial).is_ok());
    assert_eq!(world.get_entities(0), vec![other]);
    assert!(matches!(world.entity_has_component::<Velocity>(other), Ok(true)));
}

#[test]
fn deleting_drops_the_cells_of_the_entity() {
    let mut world = small_world();
    let entity = world.new_entity().build();
    let shared = Rc::new(RefCell::new(Velocity(1, 1)));
    assert!(world.add_shared_component_to_entity(&shared, entity).is_ok());
    assert_eq!(Rc::strong_count(&shared), 2);
    assert!(world.delete_entity(entity).is_ok());
    assert_eq!(Rc::strong_count(&shared), 1);
}

#[test]
fn group_delete_stops_at_the_first_that_is_not_alive() {
    let mut world = small_world();
    let first = entity_with_position(&mut world, 1, 1);
    let second = entity_with_position(&mut world, 2, 2);
    let third = entity_with_position(&mut world, 3, 3);
    let outcome = world.delete_entity_group(&[first, first, second]);
    assert!(matches!(outcome, Err(EcsErr::MissingEntity(entity)) if entity == first));
    assert_eq!(sorted(world.get_entities(0)), vec![second.0, third.0]);
    assert!(world.delete_entity_group(&[third, second]).is_ok());
    assert_eq!(world.get_entities(0), Vec::<Entity>::new());
    assert!(world.delete_entity_group(&[]).is_ok());
}

#[test]
fn a_builder_that_is_dropped_leaves_no_trace() {
    let mut world = small_world();
    let shared = Rc::new(RefCell::new(Velocity(1, 1)));
    {
        let builder = world.new_entity();
        let builder = match builder.with_shared_component(&shared) {
            Ok(builder) => builder,
            Err(error) => panic!("{:?}", error),
        };
        assert_eq!(Rc::strong_count(&shared), 2);
        drop(builder);
    }
    assert_eq!(Rc::strong_count(&shared), 1);
    assert_eq!(world.get_entities(0), Vec::<Entity>::new());
    let next = world.new_entity().build();
    assert_eq!(next, Entity(1));
    assert!(matches!(world.entity_has_component::<Velocity>(next), Ok(false)));
}

#[test]
fn an_entity_builder_refuses_what_is_not_registered() {
    let mut world = small_world();
    assert!(matches!(
        world.new_entity().with_component(Name(String::from("x"))),
        Err(EcsErr::MissingComponent(id)) if id == TypeId::of::<Name>()
    ));
    assert!(matches!(
        world.new_entity().with_shared_component(&Rc::new(RefCell::new(C1))),
        Err(EcsErr::MissingComponent(id)) if id == TypeId::of::<C1>()
    ));
    assert!(matches!(
        world.new_entity().with_flag(UNKNOWN, None),
        Err(EcsErr::MissingFlag(UNKNOWN))
    ));
    assert!(matches!(
        world.new_entity().with_cell(&TypeId::of::<Name>(), ComponentCell::new(Name(String::new()))),
        Err(EcsErr::MissingComponent(id)) if id == TypeId::of::<Name>()
    ));
    assert_eq!(world.get_entities(0), Vec::<Entity>::new());
}

#[test]
fn an_entity_builder_keeps_the_last_cell_of_a_type() {
    let mut world = small_world();
    let entity = match world.new_entity().with_component(Position(1, 1)) {
        Ok(builder) => match builder.with_component(Position(2, 2)) {
            Ok(builder) => match builder.with_flag(TEAM, Some(2)) {
                Ok(builder) => builder.build(),
                Err(error) => panic!("{:?}", error),
            },
            Err(error) => panic!("{:?}", error),
        },
        Err(error) => panic!("{:?}", error),
    };
    match world.get_entity_component::<Position>(entity) {
        Ok(Some(cell)) => assert_eq!(*cell.borrow(), Position(2, 2)),
        _ => panic!("expected a position"),
    }
    assert!(matches!(world.entity_has_flag(entity, TEAM, Some(2)), Ok(true)));
    assert_eq!(world.get_entities(0b1001), vec![entity]);
}

#[test]
fn cells_can_be_attached_and_read_by_type_identity() {
    let mut world = small_world();
    let entity = world.new_entity().build();
    let other = world.new_entity().build();
    let position = TypeId::of::<Position>();
    let cell = ComponentCell::new(Position(7, 8));
    assert!(world.add_cell_to_entity(&position, cell, entity).is_ok());
    assert!(matches!(world.entity_has_component_of(&position, entity), Ok(true)));
    assert!(matches!(world.entity_has_component_of(&position, other), Ok(false)));
    assert!(matches!(world.get_entity_cell(&position, entity), Ok(Some(_))));
    assert!(matches!(world.get_entity_cell(&position, other), Ok(None)));
    match world.get_entity_component::<Position>(entity) {
        Ok(Some(cell)) => assert_eq!(*cell.borrow(), Position(7, 8)),
        _ => panic!("expected a position"),
    }
    let shared = ComponentCell::new(Velocity(1, 2));
    let velocity = TypeId::of::<Velocity>();
    assert!(world.add_cell_to_entity_group(&velocity, &shared, &[entity, other]).is_ok());
    assert!(matches!(
        world.entity_group_has_component_of(&velocity, &[entity, other]),
        Ok(has) if has == vec![true, true]
    ));
    let cells = match world.get_entity_group_component::<Velocity>(&[entity, other]) {
        Ok(cells) => cells,
        Err(error) => panic!("{:?}", error),
    };
    assert!(Rc::ptr_eq(&cells[0], &cells[1]));
    assert!(matches!(world.get_entity_group_cell(&velocity, &[entity, other]), Ok(cells) if cells.len() == 2));
    assert!(matches!(
        world.get_some_entity_group_cell(&position, &[other, entity]),
        Ok(cells) if cells.len() == 2 && cells[0].is_none() && cells[1].is_some()
    ));
    assert!(world.delete_entity_component_of(&velocity, other).is_ok());
    assert!(matches!(world.entity_has_component_of(&velocity, other), Ok(false)));
    assert!(world.delete_entity_group_component_of(&velocity, &[entity]).is_ok());
    assert!(matches!(world.entity_has_component_of(&velocity, entity), Ok(false)));
}

#[test]
fn a_cell_of_another_type_is_reported() {
    let mut world = small_world();
    let entity = world.new_entity().build();
    let wrong = ComponentCell::new(Velocity(0, 0));
    assert!(world.add_cell_to_entity(&TypeId::of::<Position>(), wrong, entity).is_ok());
    assert!(matches!(world.entity_has_component::<Position>(entity), Ok(true)));
    assert!(matches!(
        world.get_entity_component::<Position>(entity),
        Err(EcsErr::FailedToDowncastComponentCol(1))
    ));
    assert!(matches!(
        world.get_entity_group_component::<Position>(&[entity]),
        Err(EcsErr::FailedToDowncastComponentCol(1))
    ));
    assert!(matches!(
        world.get_some_entity_group_component::<Position>(&[entity]),
        Err(EcsErr::FailedToDowncastComponentCol(1))
    ));
}

#[test]
fn component_pointers_are_found_by_key() {
    let shared = Rc::new(RefCell::new(Velocity(3, 3)));
    let world = match Small::builder()
        .with_component::<Position>()
        .with_component_pointer(10u32, Name(String::from("clock")))
        .with_shared_component_pointer(11u32, &shared)
        .build()
    {
        Ok(world) => world,
        Err(error) => panic!("{:?}", error),
    };
    match world.get_pointer_component::<Name>(10) {
        Ok(cell) => assert_eq!(*cell.borrow(), Name(String::from("clock"))),
        Err(error) => panic!("{:?}", error),
    }
    match world.get_pointer_component::<Velocity>(11) {
        Ok(cell) => {
            assert!(Rc::ptr_eq(&cell, &shared));
            cell.borrow_mut().0 = 4;
        },
        Err(error) => panic!("{:?}", error),
    }
    assert_eq!(*shared.borrow(), Velocity(4, 3));
    assert!(matches!(
        world.get_pointer_component::<Name>(12),
        Err(EcsErr::MissingComponentPtr(12))
    ));
    assert!(matches!(
        world.get_pointer_component::<Velocity>(10),
        Err(EcsErr::FailedToDowncastPtr(10))
    ));
    assert!(world.get_pointer_cell(&10).is_some());
    assert!(world.get_pointer_cell(&12).is_none());
}

#[test]
fn the_first_pointer_registered_under_a_key_wins() {
    let shared = Rc::new(RefCell::new(Name(String::from("second"))));
    let world = match Small::builder()
        .with_component_pointer(1u32, Name(String::from("first")))
        .with_shared_component_pointer(1u32, &shared)
        .with_component_pointer(1u32, Name(String::from("third")))
        .with_pointer_cell(1u32, ComponentCell::new(Velocity(0, 0)))
        .build()
    {
        Ok(world) => world,
        Err(error) => panic!("{:?}", error),
    };
    match world.get_pointer_component::<Name>(1) {
        Ok(cell) => assert_eq!(*cell.borrow(), Name(String::from("first"))),
        Err(error) => panic!("{:?}", error),
    }
    assert_eq!(Rc::strong_count(&shared), 1);
}

#[test]
fn masks_stay_in_step_with_what_is_carried() {
    let mut world = small_world();
    let first = entity_with_position(&mut world, 0, 0);
    let second = world.new_entity().build();
    assert!(world.add_component_to_entity(Velocity(0, 0), first).is_ok());
    assert!(world.set_entity_flag(first, TEAM, Some(1)).is_ok());
    assert!(world.add_component_to_entity_group(Position(1, 1), &[first, second]).is_ok());
    assert!(world.delete_entity_component::<Velocity>(first).is_ok());
    assert!(world.remove_entity_flag(first, TEAM, None).is_ok());
    assert!(world.set_entity_flag(second, TEAM, Some(2)).is_ok());
    for (entity, position, velocity) in [(first, true, false), (second, true, false)] {
        assert!(matches!(world.entity_has_component::<Position>(entity), Ok(has) if has == position));
        assert!(matches!(world.entity_has_component::<Velocity>(entity), Ok(has) if has == velocity));
        assert!(matches!(
            world.get_entity_component::<Position>(entity),
            Ok(found) if found.is_some() == position
        ));
        assert!(matches!(
            world.get_entity_component::<Velocity>(entity),
            Ok(found) if found.is_some() == velocity
        ));
    }
    assert_eq!(sorted(world.get_entities(0b0001)), vec![first.0, second.0]);
    assert_eq!(sorted(world.get_entities(0b0010)), Vec::<usize>::new());
    assert_eq!(sorted(world.get_entities(0b1000)), vec![second.0]);
    assert_eq!(sorted(world.get_entities(0b0100)), Vec::<usize>::new());
}

#[test]
fn positions_do_not_move_while_the_world_lives() {
    let mut world = small_world();
    let entity = entity_with_position(&mut world, 0, 0);
    assert!(world.set_entity_flag(entity, TEAM, None).is_ok());
    assert!(world.add_component_to_entity(Velocity(0, 0), entity).is_ok());
    assert!(world.delete_entity(entity).is_ok());
    assert!(matches!(world.component_bit_mask::<Position>(), Ok(1)));
    assert!(matches!(world.component_bit_mask::<Velocity>(), Ok(2)));
    assert!(matches!(world.flag_bit_mask(TEAM, None), Ok(0b1100)));
}

#[test]
fn the_default_entity_has_the_first_counter_value() {
    assert_eq!(Entity::default(), Entity(0));
}
