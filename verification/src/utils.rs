pub mod params;
pub mod error;
