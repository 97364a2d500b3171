pub mod antennas;
pub mod equations;
pub mod location_lists;
pub mod mul_scan;
pub mod page_order;
pub mod reports;
pub mod word_search;
