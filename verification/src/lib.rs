pub mod bits;
pub mod cli;
pub mod easydes;
pub mod laws;
pub mod model;
pub mod standard;
pub mod tables;
