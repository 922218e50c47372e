//! Minimum, mean and maximum temperature per weather station.

pub mod bytes;
pub mod chunks;
pub mod hash;
pub mod laws;
pub mod lines;
pub mod model;
pub mod pipeline;
pub mod report;
pub mod scan;
pub mod table;
pub mod temperature;
