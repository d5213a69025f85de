pub mod station_save_data;
