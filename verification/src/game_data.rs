//! The names by which wares, recipes, modules and ship configurations go.

use vstd::prelude::*;

verus! {

/// Names a kind of ware.
pub type ItemId = u32;

/// Names a recipe that turns wares into other wares.
pub type RecipeId = u32;

/// Names a kind of production module.
pub type ProductionModuleId = u32;

/// Names a kind of shipyard module.
pub type ShipyardModuleId = u32;

/// Names a ship configuration that a shipyard can build.
pub type ShipConfigId = u32;

} // verus!
