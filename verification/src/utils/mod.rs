pub mod asteroid_with_lifetime;
pub mod exchange_ware_data;
