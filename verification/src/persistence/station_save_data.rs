//! The production lines and the shipyard of a station, as they are saved.

use vstd::prelude::*;
use crate::game_data::{ProductionModuleId, RecipeId, ShipConfigId, ShipyardModuleId};
use crate::utils::asteroid_with_lifetime::SimulationTimestamp;

verus! {

/// The production lines of a station, as they are saved.
#[derive(Clone, Debug)]
pub struct ProductionSaveData {
    pub modules: Vec<ProductionModuleSaveData>,
}

/// One kind of production module of a station: how many there are, what they
/// make, and when the run that is under way ends, if one is.
#[derive(Copy, Clone, Debug, PartialEq, Eq, Structural)]
pub struct ProductionModuleSaveData {
    pub module_id: ProductionModuleId,
    pub amount: u32,
    pub recipe: RecipeId,
    pub finished_at: Option<SimulationTimestamp>,
}

/// One kind of shipyard module of a station: how many there are, and the
/// ships that they are building.
#[derive(Clone, Debug)]
pub struct ShipyardModuleSaveData {
    pub module_id: ShipyardModuleId,
    pub amount: u32,
    pub active: Vec<ActiveShipyardOrderSaveData>,
}

/// A ship that is being built, and when it will be done.
#[derive(Copy, Clone, Debug, PartialEq, Eq, Structural)]
pub struct ActiveShipyardOrderSaveData {
    pub finished_at: SimulationTimestamp,
    pub ship_config: ShipConfigId,
}

/// The shipyard of a station, as it is saved: the ships that wait to be
/// built, and the modules that build.
#[derive(Clone, Debug)]
pub struct ShipyardSaveData {
    pub queue: Vec<ShipConfigId>,
    pub modules: Vec<ShipyardModuleSaveData>,
}

} // verus!
