//! What a ship is to buy or to sell.

use vstd::prelude::*;
use crate::game_data::ItemId;

verus! {

/// An exchange of wares: which ware, and how many units of it.
#[derive(Copy, Clone, Debug, PartialEq, Eq, Structural)]
pub enum ExchangeWareData {
    Buy(ItemId, u32),
    Sell(ItemId, u32),
}

} // verus!
