use std::any::TypeId;

use ecs_world::schema::Schema;

struct Alpha;
struct Beta;
struct Gamma;

#[test]
fn an_empty_schema_needs_no_bits() {
    let schema = Schema::<u8>::new();
    assert_eq!(schema.component_len(), 0);
    assert_eq!(schema.required_bits(), 0);
    assert_eq!(schema.component_position(&TypeId::of::<Alpha>()), None);
    assert_eq!(schema.flag_range(&1u8), None);
}

#[test]
fn components_get_positions_in_order() {
    let mut schema = Schema::<u8>::new();
    assert!(schema.register_component(TypeId::of::<Alpha>()));
    assert!(schema.register_component(TypeId::of::<Beta>()));
    assert_eq!(schema.component_position(&TypeId::of::<Alpha>()), Some(0));
    assert_eq!(schema.component_position(&TypeId::of::<Beta>()), Some(1));
    assert_eq!(schema.component_position(&TypeId::of::<Gamma>()), None);
    assert_eq!(schema.component_len(), 2);
}

#[test]
fn registering_a_component_again_changes_nothing() {
    let mut schema = Schema::<u8>::new();
    assert!(schema.register_component(TypeId::of::<Alpha>()));
    assert!(schema.register_component(TypeId::of::<Beta>()));
    assert!(!schema.register_component(TypeId::of::<Alpha>()));
    assert_eq!(schema.component_len(), 2);
    assert_eq!(schema.component_position(&TypeId::of::<Alpha>()), Some(0));
    assert_eq!(schema.component_position(&TypeId::of::<Beta>()), Some(1));
}

#[test]
fn the_last_range_of_a_flag_wins() {
    let mut schema = Schema::<u8>::new();
    schema.register_flag(1u8, 0..2);
    schema.register_flag(2u8, 2..5);
    assert_eq!(schema.flag_range(&1u8), Some(0..2));
    assert_eq!(schema.flag_range(&2u8), Some(2..5));
    assert_eq!(schema.required_bits(), 5);
    schema.register_flag(2u8, 2..3);
    assert_eq!(schema.flag_range(&2u8), Some(2..3));
    assert_eq!(schema.flag_range(&1u8), Some(0..2));
    assert_eq!(schema.required_bits(), 3);
}

#[test]
fn required_bits_add_components_and_the_largest_flag_end() {
    let mut schema = Schema::<u16>::new();
    schema.register_component(TypeId::of::<Alpha>());
    schema.register_component(TypeId::of::<Beta>());
    schema.register_component(TypeId::of::<Gamma>());
    assert_eq!(schema.required_bits(), 3);
    schema.register_flag(7u16, 4..9);
    schema.register_flag(8u16, 0..4);
    assert_eq!(schema.required_bits(), 12);
    schema.register_flag(9u16, 250..255);
    assert_eq!(schema.required_bits(), 258);
}
