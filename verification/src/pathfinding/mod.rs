pub mod a_star;
pub mod frontier;
pub mod layers;
pub mod optimality;
pub mod route;
pub mod search;
pub mod search_law;
pub mod search_node;
pub mod search_result;
pub mod surrounding_sector_search;
pub mod tables;

pub use a_star::a_star as find_path;
pub use search_result::SearchResult;
pub use surrounding_sector_search::surrounding_sector_search;
