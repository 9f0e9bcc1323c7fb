//! Payloads and the type-erased handles under which the store keeps them.

use std::any::{Any, TypeId};
use std::cell::RefCell;
use std::rc::Rc;
use vstd::prelude::*;

verus! {

/// `std::any::TypeId`: the identity of a payload type.  The store only
/// carries such values and tests them for equality.
#[verifier::external_type_specification]
#[verifier::external_body]
pub struct ExTypeId(TypeId);

/// `std::cell::RefCell`: the cell that makes a shared payload mutable.  The
/// store never looks inside.
#[verifier::external_type_specification]
#[verifier::external_body]
#[verifier::reject_recursive_types(T)]
pub struct ExRefCell<T: ?Sized>(RefCell<T>);

/// `RefCell::new` wraps a value; nothing is claimed of the result.
pub assume_specification<T>[ RefCell::<T>::new ](value: T) -> (cell: RefCell<T>)
;

/// A value that can be attached to an entity: any duplicable type that has a
/// type identity of its own.
pub trait Component: Clone + 'static {}

/// A shared handle to one payload whose type has been erased, so that
/// handles to payloads of different types fit in one container.
///
/// The handle is an `Rc<dyn Any>` over the payload's `RefCell`; the verifier
/// sees it as an opaque value.
#[verifier::external_body]
pub struct ComponentCell {
    handle: Rc<dyn Any>,
}

impl ComponentCell {
    /// A handle to a new cell that holds `component`, owned by nobody else.
    pub fn new<C: Component>(component: C) -> (cell: ComponentCell) {
        let shared = Rc::new(RefCell::new(component));
        ComponentCell::erase(&shared)
    }

    /// Forgets the payload type of a shared handle.  The body clones the `Rc`
    /// and lets it coerce to `Rc<dyn Any>`; nothing is claimed of the result.
    #[verifier::external_body]
    pub(crate) fn erase<C: Component>(shared: &Rc<RefCell<C>>) -> (cell: ComponentCell) {
        ComponentCell { handle: shared.clone() }
    }

    /// Calls `Rc::downcast`: the typed handle when the payload is a `C`,
    /// and `None` otherwise.  Nothing is claimed of the result.
    #[verifier::external_body]
    pub(crate) fn recover<C: Component>(self) -> (shared: Option<Rc<RefCell<C>>>) {
        self.handle.downcast::<RefCell<C>>().ok()
    }

    /// Calls `Rc::clone`, which makes another pointer to the same
    /// allocation: the result is the same handle.
    #[verifier::external_body]
    pub(crate) fn share(&self) -> (cell: ComponentCell)
        ensures
            cell == *self,
    {
        ComponentCell { handle: self.handle.clone() }
    }
}

/// Calls `TypeId::of`, the identity of the type `C`.  Nothing is claimed of
/// the result.
#[verifier::external_body]
pub(crate) fn component_id<C: Component>() -> (id: TypeId) {
    TypeId::of::<C>()
}

/// Calls `TypeId`'s `==`, which holds exactly of equal identities.
#[verifier::external_body]
pub(crate) fn same_component(a: &TypeId, b: &TypeId) -> (same: bool)
    ensures
        same == (*a == *b),
{
    a == b
}

} // verus!
