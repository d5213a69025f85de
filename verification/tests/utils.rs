use sector_routing::persistence::station_save_data::{
    ActiveShipyardOrderSaveData, ProductionModuleSaveData, ProductionSaveData,
    ShipyardModuleSaveData, ShipyardSaveData,
};
use sector_routing::utils::asteroid_with_lifetime::AsteroidEntityWithTimestamp;
use sector_routing::utils::exchange_ware_data::ExchangeWareData;
use std::cmp::Ordering;

fn asteroid(entity: u64, timestamp: u64) -> AsteroidEntityWithTimestamp {
    AsteroidEntityWithTimestamp { entity, timestamp }
}

#[test]
fn asteroids_are_equal_where_they_are_one_asteroid() {
    assert!(asteroid(4, 100) == asteroid(4, 999));
    assert!(asteroid(4, 100) != asteroid(5, 100));
}

#[test]
fn asteroids_are_ordered_by_time_the_later_first() {
    assert_eq!(asteroid(1, 100).partial_cmp(&asteroid(2, 200)), Some(Ordering::Greater));
    assert_eq!(asteroid(1, 300).partial_cmp(&asteroid(2, 200)), Some(Ordering::Less));
    assert_eq!(asteroid(1, 200).partial_cmp(&asteroid(2, 200)), Some(Ordering::Equal));
    assert!(asteroid(1, 100) > asteroid(2, 200));
    assert!(asteroid(1, 300) < asteroid(2, 200));
    assert!(asteroid(1, 200) >= asteroid(2, 200));
}

#[test]
fn exchange_ware_data_keeps_ware_and_amount() {
    let buy = ExchangeWareData::Buy(3, 50);
    let sell = ExchangeWareData::Sell(3, 50);
    assert_ne!(buy, sell);
    assert_eq!(buy, ExchangeWareData::Buy(3, 50));
    assert!(matches!(sell, ExchangeWareData::Sell(3, 50)));
}

#[test]
fn save_data_keeps_what_it_is_given() {
    let production = ProductionSaveData {
        modules: vec![ProductionModuleSaveData {
            module_id: 2,
            amount: 3,
            recipe: 9,
            finished_at: Some(5000),
        }],
    };
    let copy = production.clone();
    assert_eq!(copy.modules, production.modules);
    assert_eq!(copy.modules[0].finished_at, Some(5000));

    let shipyard = ShipyardSaveData {
        queue: vec![1, 1, 2],
        modules: vec![ShipyardModuleSaveData {
            module_id: 0,
            amount: 2,
            active: vec![ActiveShipyardOrderSaveData { finished_at: 700, ship_config: 1 }],
        }],
    };
    let copy = shipyard.clone();
    assert_eq!(copy.queue, vec![1, 1, 2]);
    assert_eq!(copy.modules[0].amount, 2);
    assert_eq!(copy.modules[0].active, shipyard.modules[0].active);
}
