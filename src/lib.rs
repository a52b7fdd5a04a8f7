pub mod segment;
pub mod min_max;
pub mod is_there;
pub mod tree;
pub mod itinerary;
pub mod scans;
