pub mod evolution;
pub mod geometry;
pub mod store;
pub mod universe;
