//! The entity-component-system core: entities, typed component storage,
//! queries and system ordering.

pub mod entity;
pub mod component;
pub mod query;
pub mod system;

use vstd::prelude::*;

verus! {

/// Sets the ECS up. There is nothing to prepare yet.
pub fn init() {
}

} // verus!
